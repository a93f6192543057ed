use vstd::prelude::*;

use crate::text::char_from_u32;
use crate::text::chars_to_string;

verus! {

// A record is persisted as a flat byte string of this crate's own framing:
// every integer is eight bytes, most significant first, and every string is
// its character count followed by one integer per Unicode scalar value.

/// The eight-byte big-endian form of `x`.
pub open spec fn enc_u64(x: u64) -> Seq<u8> {
    seq![
        ((x >> 56) & 0xff) as u8,
        ((x >> 48) & 0xff) as u8,
        ((x >> 40) & 0xff) as u8,
        ((x >> 32) & 0xff) as u8,
        ((x >> 24) & 0xff) as u8,
        ((x >> 16) & 0xff) as u8,
        ((x >> 8) & 0xff) as u8,
        (x & 0xff) as u8,
    ]
}

/// The integer stored in the eight bytes of `s` that start at `i`.
pub open spec fn dec_u64_at(s: Seq<u8>, i: int) -> u64 {
    ((s[i] as u64) << 56) | ((s[i + 1] as u64) << 48) | ((s[i + 2] as u64) << 40) | ((s[i
        + 3] as u64) << 32) | ((s[i + 4] as u64) << 24) | ((s[i + 5] as u64) << 16) | ((s[i
        + 6] as u64) << 8) | (s[i + 7] as u64)
}

pub proof fn lemma_u64_round_trip(x: u64)
    ensures
        dec_u64_at(enc_u64(x), 0) == x,
{
    let b0 = ((x >> 56) & 0xff) as u8;
    let b1 = ((x >> 48) & 0xff) as u8;
    let b2 = ((x >> 40) & 0xff) as u8;
    let b3 = ((x >> 32) & 0xff) as u8;
    let b4 = ((x >> 24) & 0xff) as u8;
    let b5 = ((x >> 16) & 0xff) as u8;
    let b6 = ((x >> 8) & 0xff) as u8;
    let b7 = (x & 0xff) as u8;
    assert(((((x >> 56) & 0xff) as u8 as u64) << 56) | ((((x >> 48) & 0xff) as u8 as u64) << 48)
        | ((((x >> 40) & 0xff) as u8 as u64) << 40) | ((((x >> 32) & 0xff) as u8 as u64) << 32)
        | ((((x >> 24) & 0xff) as u8 as u64) << 24) | ((((x >> 16) & 0xff) as u8 as u64) << 16)
        | ((((x >> 8) & 0xff) as u8 as u64) << 8) | ((x & 0xff) as u8 as u64) == x)
        by (bit_vector);
    assert(dec_u64_at(enc_u64(x), 0) == ((b0 as u64) << 56) | ((b1 as u64) << 48) | ((b2
        as u64) << 40) | ((b3 as u64) << 32) | ((b4 as u64) << 24) | ((b5 as u64) << 16) | ((b6
        as u64) << 8) | (b7 as u64));
}

/// Appends the eight-byte form of `x` to `out`.
pub fn push_u64(out: &mut Vec<u8>, x: u64)
    ensures
        final(out)@ == old(out)@ + enc_u64(x),
{
    proof {
        assert((x >> 56) & 0xff < 256 && (x >> 48) & 0xff < 256 && (x >> 40) & 0xff < 256 && (x
            >> 32) & 0xff < 256 && (x >> 24) & 0xff < 256 && (x >> 16) & 0xff < 256 && (x >> 8)
            & 0xff < 256 && x & 0xff < 256) by (bit_vector);
    }
    out.push(((x >> 56) & 0xff) as u8);
    out.push(((x >> 48) & 0xff) as u8);
    out.push(((x >> 40) & 0xff) as u8);
    out.push(((x >> 32) & 0xff) as u8);
    out.push(((x >> 24) & 0xff) as u8);
    out.push(((x >> 16) & 0xff) as u8);
    out.push(((x >> 8) & 0xff) as u8);
    out.push((x & 0xff) as u8);
    proof {
        assert(out@ =~= old(out)@ + enc_u64(x));
    }
}

/// Reads the integer stored in the eight bytes of `s` that start at `i`.
pub fn read_u64(s: &Vec<u8>, i: usize) -> (r: u64)
    requires
        i + 8 <= s@.len(),
    ensures
        r == dec_u64_at(s@, i as int),
{
    let n: usize = s.len();
    proof {
        assert(i + 8 <= n);
    }
    ((s[i] as u64) << 56) | ((s[i + 1] as u64) << 48) | ((s[i + 2] as u64) << 40) | ((s[i
        + 3] as u64) << 32) | ((s[i + 4] as u64) << 24) | ((s[i + 5] as u64) << 16) | ((s[i
        + 6] as u64) << 8) | (s[i + 7] as u64)
}

/// Whether the stored integer `v` is a Unicode scalar value.
pub open spec fn scalar64(v: u64) -> bool {
    v < 0xD800 || (0xE000 <= v && v <= 0x10FFFF)
}

/// The stored form of a character: its code point, widened.
pub open spec fn code_of(c: char) -> u64 {
    (c as u32) as u64
}

/// The code points of a character sequence.  Two strings a program can hold
/// are equal exactly when their code point sequences are.
pub open spec fn codes_of(s: Seq<char>) -> Seq<u64> {
    s.map(|k: int, c: char| code_of(c))
}

/// Whether `c` lies in the Unicode scalar range.  Every character a program
/// can hold does; the predicate makes that explicit for character values
/// that occur only inside specifications.
pub open spec fn char_ok(c: char) -> bool {
    c as u32 <= 0x10FFFF && !(0xD800 <= c as u32 && c as u32 <= 0xDFFF)
}

/// Whether every character of `s` lies in the Unicode scalar range.
pub open spec fn chars_ok(s: Seq<char>) -> bool {
    forall|k: int| 0 <= k < s.len() ==> char_ok(#[trigger] s[k])
}

/// The byte form of a character sequence: eight bytes per code point.
pub open spec fn enc_chars(s: Seq<char>) -> Seq<u8>
    decreases s.len(),
{
    if s.len() == 0 {
        Seq::empty()
    } else {
        enc_u64(code_of(s.first())) + enc_chars(s.drop_first())
    }
}

/// The byte form of a string: its character count, then its characters.
pub open spec fn enc_str(s: Seq<char>) -> Seq<u8> {
    enc_u64(s.len() as u64) + enc_chars(s)
}

/// The `n` code points stored in `s` from byte offset `i` on, when all of
/// them are Unicode scalar values.
pub open spec fn take_codes(s: Seq<u8>, i: int, n: nat) -> Option<Seq<u64>>
    decreases n,
{
    if n == 0 {
        Some(Seq::empty())
    } else if i + 8 <= s.len() && scalar64(dec_u64_at(s, i)) {
        match take_codes(s, i + 8, (n - 1) as nat) {
            Some(vs) => Some(seq![dec_u64_at(s, i)] + vs),
            None => None,
        }
    } else {
        None
    }
}

/// The string stored in `s` at byte offset `i`, as its code points, with the
/// offset just past it.
pub open spec fn take_str(s: Seq<u8>, i: int) -> Option<(Seq<u64>, int)> {
    if i + 8 <= s.len() {
        let n = dec_u64_at(s, i) as int;
        match take_codes(s, i + 8, n as nat) {
            Some(vs) => Some((vs, i + 8 + 8 * n)),
            None => None,
        }
    } else {
        None
    }
}

/// Decoding reads back exactly the integer that was encoded, wherever the
/// eight encoded bytes stand in a larger byte string.
pub proof fn lemma_dec_at_enc(s: Seq<u8>, i: int, x: u64)
    requires
        0 <= i,
        i + 8 <= s.len(),
        s.subrange(i, i + 8) == enc_u64(x),
    ensures
        dec_u64_at(s, i) == x,
{
    assert forall|k: int| 0 <= k < 8 implies s[i + k] == enc_u64(x)[k] by {
        assert(s.subrange(i, i + 8)[k] == s[i + k]);
    }
    lemma_u64_round_trip(x);
}

pub proof fn lemma_enc_chars_len(s: Seq<char>)
    ensures
        enc_chars(s).len() == 8 * s.len(),
    decreases s.len(),
{
    if s.len() > 0 {
        lemma_enc_chars_len(s.drop_first());
    }
}

/// Appending one character to a string appends its eight bytes to the code.
pub proof fn lemma_enc_chars_push(s: Seq<char>, c: char)
    ensures
        enc_chars(s.push(c)) == enc_chars(s) + enc_u64(code_of(c)),
    decreases s.len(),
{
    if s.len() == 0 {
        assert(s.push(c).first() == c);
        assert(s.push(c).drop_first() =~= Seq::<char>::empty());
        assert(enc_chars(s.push(c)) == enc_u64(code_of(c)) + enc_chars(Seq::<char>::empty()));
        assert(enc_chars(s.push(c)) =~= enc_chars(s) + enc_u64(code_of(c)));
    } else {
        lemma_enc_chars_push(s.drop_first(), c);
        assert(s.push(c).first() == s.first());
        assert(s.push(c).drop_first() =~= s.drop_first().push(c));
        assert(enc_chars(s.push(c)) == enc_u64(code_of(s.first())) + enc_chars(
            s.drop_first().push(c),
        ));
        assert(enc_chars(s.push(c)) =~= enc_chars(s) + enc_u64(code_of(c)));
    }
}

/// Reading code points back from a string's own byte form yields exactly the
/// code points of the string.
pub proof fn lemma_take_codes_of_enc(s: Seq<u8>, i: int, cs: Seq<char>)
    requires
        0 <= i,
        chars_ok(cs),
        i + 8 * cs.len() <= s.len(),
        s.subrange(i, i + 8 * cs.len()) == enc_chars(cs),
    ensures
        take_codes(s, i, cs.len()) == Some(codes_of(cs)),
    decreases cs.len(),
{
    if cs.len() == 0 {
        assert(codes_of(cs) =~= Seq::<u64>::empty());
    } else {
        let c = cs.first();
        let v = code_of(c);
        lemma_enc_chars_len(cs.drop_first());
        assert(s.subrange(i, i + 8) =~= enc_chars(cs).subrange(0, 8));
        assert(enc_chars(cs).subrange(0, 8) =~= enc_u64(v));
        lemma_dec_at_enc(s, i, v);
        assert(char_ok(c)) by {
            assert(c == cs[0]);
        }
        assert(scalar64(v));
        let m = 8 * cs.drop_first().len();
        assert(s.subrange(i + 8, i + 8 + m) =~= enc_chars(cs.drop_first())) by {
            assert forall|k: int| 0 <= k < m implies s.subrange(i + 8, i + 8 + m)[k]
                == enc_chars(cs.drop_first())[k] by {
                assert(s.subrange(i, i + 8 * cs.len())[8 + k] == s[i + 8 + k]);
                assert((enc_u64(v) + enc_chars(cs.drop_first()))[8 + k] == enc_chars(
                    cs.drop_first(),
                )[k]);
            }
        }
        assert(chars_ok(cs.drop_first())) by {
            assert(forall|k: int|
                0 <= k < cs.drop_first().len() ==> cs.drop_first()[k] == #[trigger] cs[k + 1]);
        }
        lemma_take_codes_of_enc(s, i + 8, cs.drop_first());
        assert(seq![v] + codes_of(cs.drop_first()) =~= codes_of(cs));
    }
}

/// Reading a string back from its own byte form yields exactly its code
/// points, and stops exactly past it.
pub proof fn lemma_take_str_of_enc(s: Seq<u8>, i: int, cs: Seq<char>)
    requires
        0 <= i,
        chars_ok(cs),
        cs.len() <= 0xFFFFFFFF,
        i + 8 + 8 * cs.len() <= s.len(),
        s.subrange(i, i + 8 + 8 * cs.len()) == enc_str(cs),
    ensures
        take_str(s, i) == Some((codes_of(cs), i + 8 + 8 * cs.len())),
{
    lemma_enc_chars_len(cs);
    assert(s.subrange(i, i + 8) =~= enc_str(cs).subrange(0, 8));
    assert(enc_str(cs).subrange(0, 8) =~= enc_u64(cs.len() as u64));
    lemma_dec_at_enc(s, i, cs.len() as u64);
    let m = 8 * cs.len();
    assert(s.subrange(i + 8, i + 8 + m) =~= enc_chars(cs)) by {
        assert forall|k: int| 0 <= k < m implies s.subrange(i + 8, i + 8 + m)[k] == enc_chars(
            cs,
        )[k] by {
            assert(s.subrange(i, i + 8 + m)[8 + k] == s[i + 8 + k]);
            assert((enc_u64(cs.len() as u64) + enc_chars(cs))[8 + k] == enc_chars(cs)[k]);
        }
    }
    lemma_take_codes_of_enc(s, i + 8, cs);
}

/// Appends the byte form of the string `st` to `out`.
pub fn push_str(out: &mut Vec<u8>, st: &str)
    ensures
        final(out)@ == old(out)@ + enc_str(st@),
        chars_ok(st@),
{
    let n: usize = st.unicode_len();
    push_u64(out, n as u64);
    let ghost base = out@;
    let mut j: usize = 0;
    while j < n
        invariant
            n == st@.len(),
            j <= n,
            base == old(out)@ + enc_u64(n as u64),
            out@ == base + enc_chars(st@.subrange(0, j as int)),
            forall|k: int| 0 <= k < j ==> char_ok(#[trigger] st@[k]),
        decreases n - j,
    {
        let c = st.get_char(j);
        push_u64(out, (c as u32) as u64);
        proof {
            lemma_enc_chars_push(st@.subrange(0, j as int), c);
            assert(st@.subrange(0, j + 1) =~= st@.subrange(0, j as int).push(c));
            assert(char_ok(st@[j as int]));
        }
        j = j + 1;
    }
    proof {
        assert(st@.subrange(0, n as int) =~= st@);
        assert(out@ =~= old(out)@ + enc_str(st@));
    }
}

/// When fewer than `8 * n` bytes remain, no `n` code points can be read.
proof fn lemma_take_codes_short(s: Seq<u8>, i: int, n: nat)
    requires
        n > 0,
        i + 8 * n > s.len(),
    ensures
        take_codes(s, i, n) is None,
    decreases n,
{
    if i + 8 <= s.len() && scalar64(dec_u64_at(s, i)) {
        lemma_take_codes_short(s, i + 8, (n - 1) as nat);
    }
}

/// Reads the string stored in `s` at byte offset `i`; `None` when the bytes
/// there do not hold one.
pub fn read_str(s: &Vec<u8>, i: usize) -> (r: Option<(String, usize)>)
    ensures
        r matches Some(p) ==> take_str(s@, i as int) == Some((codes_of(p.0@), p.1 as int))
            && chars_ok(p.0@),
        r is None ==> take_str(s@, i as int) is None,
{
    let len: usize = s.len();
    if i > len || len - i < 8 {
        return None;
    }
    let n64 = read_u64(s, i);
    // every stored character takes eight bytes, so an oversized count can
    // only mean a truncated or corrupt record
    let q: usize = (len - i - 8) / 8;
    if n64 > q as u64 {
        proof {
            assert(8 * ((len - i - 8) as int / 8) + 8 > (len - i - 8) as int) by (nonlinear_arith);
            assert(i + 8 + 8 * (n64 as int) > len);
            lemma_take_codes_short(s@, i + 8, n64 as nat);
        }
        return None;
    }
    let n: usize = n64 as usize;
    proof {
        assert(n64 <= q as u64);
        assert(n as u64 == n64);
        assert(8 * ((len - i - 8) as int / 8) <= (len - i - 8) as int) by (nonlinear_arith);
        assert(i + 8 + 8 * (n as int) <= len);
    }
    let mut acc: Vec<char> = Vec::new();
    let mut j: usize = 0;
    while j < n
        invariant
            len == s@.len(),
            i + 8 + 8 * (n as int) <= len,
            n64 == dec_u64_at(s@, i as int),
            n as u64 == n64,
            j <= n,
            acc@.len() == j,
            chars_ok(acc@),
            take_codes(s@, i + 8, n as nat) == (match take_codes(
                s@,
                i + 8 + 8 * j,
                (n - j) as nat,
            ) {
                Some(vs) => Some(codes_of(acc@) + vs),
                None => None::<Seq<u64>>,
            }),
        decreases n - j,
    {
        let pos: usize = i + 8 + 8 * j;
        let v = read_u64(s, pos);
        if v >= 0xD800 && (v < 0xE000 || v > 0x10FFFF) {
            proof {
                assert(!scalar64(v));
                assert(take_codes(s@, pos as int, (n - j) as nat) is None);
                assert(take_codes(s@, i + 8, n as nat) is None);
                assert((dec_u64_at(s@, i as int) as int) as nat == n as nat);
                assert(take_str(s@, i as int) is None);
            }
            return None;
        }
        let c_opt = char_from_u32(v as u32);
        let c = match c_opt {
            Some(c) => c,
            None => {
                proof {
                    assert(false);
                }
                return None;
            },
        };
        proof {
            assert((v as u32) as u64 == v);
            assert(code_of(c) == v);
            assert(char_ok(c));
        }
        let ghost prev = acc@;
        acc.push(c);
        proof {
            assert(codes_of(acc@) =~= codes_of(prev) + seq![v]);
            assert(forall|vs: Seq<u64>|
                #[trigger] (codes_of(prev) + (seq![v] + vs)) =~= (codes_of(prev) + seq![v]) + vs);
        }
        j = j + 1;
    }
    proof {
        assert(take_codes(s@, i + 8 + 8 * (n as int), 0) == Some(Seq::<u64>::empty()));
        assert(codes_of(acc@) + Seq::<u64>::empty() =~= codes_of(acc@));
    }
    let st = chars_to_string(&acc);
    Some((st, i + 8 + 8 * n))
}

// --- page records ---

/// The byte form of a page record: directory, file name, page number.
pub open spec fn enc_source(dir: Seq<char>, file: Seq<char>, page: u64) -> Seq<u8> {
    enc_str(dir) + enc_str(file) + enc_u64(page)
}

/// The page record stored in `s`, as the code points of its two strings and
/// its page number; `None` when the bytes do not hold exactly one record.
pub open spec fn dec_source_at(s: Seq<u8>) -> Option<(Seq<u64>, Seq<u64>, u64)> {
    match take_str(s, 0) {
        Some((d, i1)) => match take_str(s, i1) {
            Some((f, i2)) => if i2 + 8 == s.len() && dec_u64_at(s, i2) <= usize::MAX as u64 {
                Some((d, f, dec_u64_at(s, i2)))
            } else {
                None
            },
            None => None,
        },
        None => None,
    }
}

/// Serializes a page record.
pub fn encode_source(src: &crate::source::Source) -> (out: Vec<u8>)
    ensures
        out@ == enc_source(src.dir@, src.file_name@, src.page_number as u64),
        chars_ok(src.dir@),
        chars_ok(src.file_name@),
{
    let mut out: Vec<u8> = Vec::new();
    push_str(&mut out, src.dir.as_str());
    push_str(&mut out, src.file_name.as_str());
    push_u64(&mut out, src.page_number as u64);
    proof {
        assert(out@ =~= enc_source(src.dir@, src.file_name@, src.page_number as u64));
    }
    out
}

/// Deserializes a page record; `None` when the bytes are corrupt.
pub fn decode_source(bytes: &Vec<u8>) -> (r: Option<crate::source::Source>)
    ensures
        r matches Some(src) ==> dec_source_at(bytes@) == Some(
            (codes_of(src.dir@), codes_of(src.file_name@), src.page_number as u64),
        ) && chars_ok(src.dir@) && chars_ok(src.file_name@),
        r is None ==> dec_source_at(bytes@) is None,
{
    let len: usize = bytes.len();
    let (dir, i1) = match read_str(bytes, 0) {
        Some(p) => p,
        None => {
            return None;
        },
    };
    let (file_name, i2) = match read_str(bytes, i1) {
        Some(p) => p,
        None => {
            return None;
        },
    };
    proof {
        assert(i2 + 8 <= usize::MAX + 8);
    }
    if i2 > len || len - i2 != 8 {
        return None;
    }
    let p = read_u64(bytes, i2);
    if p > usize::MAX as u64 {
        return None;
    }
    Some(crate::source::Source { dir, file_name, page_number: p as usize })
}

/// A page record read back from its own bytes yields exactly the original
/// field values, stated over the code points that identify the strings.
pub proof fn lemma_source_round_trip(dir: Seq<char>, file: Seq<char>, page: u64)
    requires
        chars_ok(dir),
        chars_ok(file),
        dir.len() <= 0xFFFFFFFF,
        file.len() <= 0xFFFFFFFF,
        page <= usize::MAX as u64,
    ensures
        dec_source_at(enc_source(dir, file, page)) == Some((codes_of(dir), codes_of(file), page)),
{
    let s = enc_source(dir, file, page);
    lemma_enc_chars_len(dir);
    lemma_enc_chars_len(file);
    let i1 = 8 + 8 * dir.len() as int;
    let i2 = i1 + 8 + 8 * file.len() as int;
    assert(s.len() == i2 + 8);
    assert(s.subrange(0, i1) =~= enc_str(dir));
    lemma_take_str_of_enc(s, 0, dir);
    assert(s.subrange(i1, i2) =~= enc_str(file));
    lemma_take_str_of_enc(s, i1, file);
    assert(s.subrange(i2, i2 + 8) =~= enc_u64(page));
    lemma_dec_at_enc(s, i2, page);
}

// --- postings records ---

/// The sum of the per-page occurrence counts of `ps`.
pub open spec fn sum_counts(ps: Seq<(u64, usize)>) -> int
    decreases ps.len(),
{
    if ps.len() == 0 {
        0
    } else {
        sum_counts(ps.drop_last()) + ps.last().1
    }
}

/// Whether every per-page occurrence count in `ps` is positive.
pub open spec fn counts_positive(ps: Seq<(u64, usize)>) -> bool {
    forall|k: int| 0 <= k < ps.len() ==> (#[trigger] ps[k]).1 >= 1
}

/// The byte form of the per-page pairs: hash then count, eight bytes each.
pub open spec fn enc_pairs(ps: Seq<(u64, usize)>) -> Seq<u8>
    decreases ps.len(),
{
    if ps.len() == 0 {
        Seq::empty()
    } else {
        enc_u64(ps.first().0) + enc_u64(ps.first().1 as u64) + enc_pairs(ps.drop_first())
    }
}

/// The byte form of a postings record: total, pair count, then the pairs.
pub open spec fn enc_rev(freq: usize, ps: Seq<(u64, usize)>) -> Seq<u8> {
    enc_u64(freq as u64) + enc_u64(ps.len() as u64) + enc_pairs(ps)
}

/// The `n` pairs stored in `s` from byte offset `i` on, when each count
/// fits the machine word it is read into.
pub open spec fn take_pairs(s: Seq<u8>, i: int, n: nat) -> Option<Seq<(u64, usize)>>
    decreases n,
{
    if n == 0 {
        Some(Seq::empty())
    } else if i + 16 <= s.len() && dec_u64_at(s, i + 8) <= usize::MAX as u64 {
        match take_pairs(s, i + 16, (n - 1) as nat) {
            Some(ps) => Some(seq![(dec_u64_at(s, i), dec_u64_at(s, i + 8) as usize)] + ps),
            None => None,
        }
    } else {
        None
    }
}

/// The postings record stored in `s`; `None` when the bytes do not frame
/// exactly one record.  The framing is structural only: whatever total and
/// counts were written come back as they stand.
pub open spec fn dec_rev_at(s: Seq<u8>) -> Option<(usize, Seq<(u64, usize)>)> {
    if 16 <= s.len() && dec_u64_at(s, 0) <= usize::MAX as u64 {
        let f = dec_u64_at(s, 0);
        let n = dec_u64_at(s, 8) as int;
        match take_pairs(s, 16, n as nat) {
            Some(ps) => if 16 + 16 * n == s.len() {
                Some((f as usize, ps))
            } else {
                None
            },
            None => None,
        }
    } else {
        None
    }
}

pub proof fn lemma_enc_pairs_len(ps: Seq<(u64, usize)>)
    ensures
        enc_pairs(ps).len() == 16 * ps.len(),
    decreases ps.len(),
{
    if ps.len() > 0 {
        lemma_enc_pairs_len(ps.drop_first());
    }
}

/// Appending one pair to the sequence appends its sixteen bytes to the code.
pub proof fn lemma_enc_pairs_push(ps: Seq<(u64, usize)>, p: (u64, usize))
    ensures
        enc_pairs(ps.push(p)) == enc_pairs(ps) + enc_u64(p.0) + enc_u64(p.1 as u64),
    decreases ps.len(),
{
    if ps.len() == 0 {
        assert(ps.push(p).first() == p);
        assert(ps.push(p).drop_first() =~= Seq::<(u64, usize)>::empty());
        assert(enc_pairs(ps.push(p)) == enc_u64(p.0) + enc_u64(p.1 as u64) + enc_pairs(
            Seq::<(u64, usize)>::empty(),
        ));
        assert(enc_pairs(ps.push(p)) =~= enc_pairs(ps) + enc_u64(p.0) + enc_u64(p.1 as u64));
    } else {
        lemma_enc_pairs_push(ps.drop_first(), p);
        assert(ps.push(p).first() == ps.first());
        assert(ps.push(p).drop_first() =~= ps.drop_first().push(p));
        assert(enc_pairs(ps.push(p)) == enc_u64(ps.first().0) + enc_u64(ps.first().1 as u64)
            + enc_pairs(ps.drop_first().push(p)));
        assert(enc_pairs(ps.push(p)) =~= enc_pairs(ps) + enc_u64(p.0) + enc_u64(p.1 as u64));
    }
}

/// Reading pairs back from their own byte form yields the original pairs.
pub proof fn lemma_take_pairs_of_enc(s: Seq<u8>, i: int, ps: Seq<(u64, usize)>)
    requires
        0 <= i,
        i + 16 * ps.len() <= s.len(),
        s.subrange(i, i + 16 * ps.len()) == enc_pairs(ps),
    ensures
        take_pairs(s, i, ps.len()) == Some(ps),
    decreases ps.len(),
{
    if ps.len() == 0 {
    } else {
        let h = ps.first().0;
        let c = ps.first().1;
        lemma_enc_pairs_len(ps.drop_first());
        assert(s.subrange(i, i + 8) =~= enc_u64(h)) by {
            assert(s.subrange(i, i + 8) =~= enc_pairs(ps).subrange(0, 8));
            assert(enc_pairs(ps).subrange(0, 8) =~= (enc_u64(h) + enc_u64(c as u64) + enc_pairs(
                ps.drop_first(),
            )).subrange(0, 8));
        }
        lemma_dec_at_enc(s, i, h);
        assert(s.subrange(i + 8, i + 16) =~= enc_u64(c as u64)) by {
            assert forall|k: int| #![trigger s.subrange(i + 8, i + 16)[k]] 0 <= k < 8 implies s.subrange(
                i + 8,
                i + 16,
            )[k] == enc_u64(c as u64)[k] by {
                assert(s.subrange(i, i + 16 * ps.len())[8 + k] == s[i + 8 + k]);
                assert((enc_u64(h) + enc_u64(c as u64) + enc_pairs(ps.drop_first()))[8 + k]
                    == enc_u64(c as u64)[k]);
            }
        }
        lemma_dec_at_enc(s, i + 8, c as u64);
        let m = 16 * ps.drop_first().len();
        assert(s.subrange(i + 16, i + 16 + m) =~= enc_pairs(ps.drop_first())) by {
            assert forall|k: int| 0 <= k < m implies s.subrange(i + 16, i + 16 + m)[k]
                == enc_pairs(ps.drop_first())[k] by {
                assert(s.subrange(i, i + 16 * ps.len())[16 + k] == s[i + 16 + k]);
                assert((enc_u64(h) + enc_u64(c as u64) + enc_pairs(ps.drop_first()))[16 + k]
                    == enc_pairs(ps.drop_first())[k]);
            }
        }
        lemma_take_pairs_of_enc(s, i + 16, ps.drop_first());
        assert(seq![(h, c)] + ps.drop_first() =~= ps);
    }
}

/// A postings record read back from its own bytes is the original record,
/// whatever total and counts it holds.
pub proof fn lemma_rev_round_trip(freq: usize, ps: Seq<(u64, usize)>)
    requires
        ps.len() <= 0xFFFFFFFF,
    ensures
        dec_rev_at(enc_rev(freq, ps)) == Some((freq, ps)),
{
    let s = enc_rev(freq, ps);
    lemma_enc_pairs_len(ps);
    assert(s.subrange(0, 8) =~= enc_u64(freq as u64));
    lemma_dec_at_enc(s, 0, freq as u64);
    assert(s.subrange(8, 16) =~= enc_u64(ps.len() as u64));
    lemma_dec_at_enc(s, 8, ps.len() as u64);
    let m = 16 * ps.len() as int;
    assert(s.subrange(16, 16 + m) =~= enc_pairs(ps)) by {
        assert forall|k: int| 0 <= k < m implies s.subrange(16, 16 + m)[k] == enc_pairs(ps)[k] by {
            assert((enc_u64(freq as u64) + enc_u64(ps.len() as u64) + enc_pairs(ps))[16 + k]
                == enc_pairs(ps)[k]);
        }
    }
    lemma_take_pairs_of_enc(s, 16, ps);
}

/// Serializes a postings record.
pub fn encode_rev(rec: &crate::index::RevIndexRecord) -> (out: Vec<u8>)
    ensures
        out@ == enc_rev(rec.freq, rec.sources@),
{
    let mut out: Vec<u8> = Vec::new();
    push_u64(&mut out, rec.freq as u64);
    let n: usize = rec.sources.len();
    push_u64(&mut out, n as u64);
    let ghost base = out@;
    let mut j: usize = 0;
    while j < n
        invariant
            n == rec.sources@.len(),
            j <= n,
            base == enc_u64(rec.freq as u64) + enc_u64(n as u64),
            out@ == base + enc_pairs(rec.sources@.subrange(0, j as int)),
        decreases n - j,
    {
        let (h, c) = rec.sources[j];
        push_u64(&mut out, h);
        push_u64(&mut out, c as u64);
        proof {
            lemma_enc_pairs_push(rec.sources@.subrange(0, j as int), rec.sources@[j as int]);
            assert(rec.sources@.subrange(0, j + 1) =~= rec.sources@.subrange(0, j as int).push(
                rec.sources@[j as int],
            ));
        }
        j = j + 1;
    }
    proof {
        assert(rec.sources@.subrange(0, n as int) =~= rec.sources@);
        assert(out@ =~= enc_rev(rec.freq, rec.sources@));
    }
    out
}

/// Deserializes a postings record; `None` when the bytes do not frame one.
pub fn decode_rev(bytes: &Vec<u8>) -> (r: Option<crate::index::RevIndexRecord>)
    ensures
        r matches Some(rec) ==> dec_rev_at(bytes@) == Some((rec.freq, rec.sources@)),
        r is None ==> dec_rev_at(bytes@) is None,
{
    let len: usize = bytes.len();
    if len < 16 {
        return None;
    }
    let f64v = read_u64(bytes, 0);
    if f64v > usize::MAX as u64 {
        return None;
    }
    let freq: usize = f64v as usize;
    let n64 = read_u64(bytes, 8);
    // sixteen bytes per pair: an oversized pair count means corruption
    let q: usize = (len - 16) / 16;
    if n64 > q as u64 {
        proof {
            assert(16 * ((len - 16) as int / 16) + 16 > (len - 16) as int) by (nonlinear_arith);
            assert(16 + 16 * (n64 as int) > len);
            lemma_take_pairs_short(bytes@, 16, n64 as nat);
        }
        return None;
    }
    let n: usize = n64 as usize;
    proof {
        assert(n64 <= q as u64);
        assert(n as u64 == n64);
        assert(16 * ((len - 16) as int / 16) <= (len - 16) as int) by (nonlinear_arith);
        assert(16 + 16 * (n as int) <= len);
    }
    if len - 16 != 16 * n {
        proof {
            lemma_dec_rev_wrong_len(bytes@, freq, n);
        }
        return None;
    }
    let mut acc: Vec<(u64, usize)> = Vec::new();
    let mut j: usize = 0;
    while j < n
        invariant
            len == bytes@.len(),
            16 + 16 * (n as int) <= len,
            n64 == dec_u64_at(bytes@, 8),
            n as u64 == n64,
            f64v == dec_u64_at(bytes@, 0),
            freq == f64v as usize,
            f64v <= usize::MAX as u64,
            j <= n,
            acc@.len() == j,
            take_pairs(bytes@, 16, n as nat) == (match take_pairs(
                bytes@,
                16 + 16 * j,
                (n - j) as nat,
            ) {
                Some(ps) => Some(acc@ + ps),
                None => None::<Seq<(u64, usize)>>,
            }),
        decreases n - j,
    {
        let pos: usize = 16 + 16 * j;
        let h = read_u64(bytes, pos);
        let c64 = read_u64(bytes, pos + 8);
        if c64 > usize::MAX as u64 {
            proof {
                assert(take_pairs(bytes@, pos as int, (n - j) as nat) is None);
                assert(take_pairs(bytes@, 16, n as nat) is None);
                assert(dec_rev_at(bytes@) is None);
            }
            return None;
        }
        let c: usize = c64 as usize;
        let ghost prev = acc@;
        acc.push((h, c));
        proof {
            assert(acc@ =~= prev.push((h, c)));
            assert(forall|ps: Seq<(u64, usize)>|
                #[trigger] (prev + (seq![(h, c)] + ps)) =~= (prev + seq![(h, c)]) + ps);
            assert(prev + seq![(h, c)] =~= acc@);
        }
        j = j + 1;
    }
    proof {
        assert(take_pairs(bytes@, 16 + 16 * (n as int), 0) == Some(Seq::<(u64, usize)>::empty()));
        assert(acc@ + Seq::<(u64, usize)>::empty() =~= acc@);
        assert((dec_u64_at(bytes@, 8) as int) as nat == n as nat);
        assert(dec_rev_at(bytes@) == Some((freq, acc@)));
    }
    Some(crate::index::RevIndexRecord { freq, sources: acc })
}

/// When fewer than `16 * n` bytes remain, no `n` pairs can be read.
proof fn lemma_take_pairs_short(s: Seq<u8>, i: int, n: nat)
    requires
        n > 0,
        i + 16 * n > s.len(),
    ensures
        take_pairs(s, i, n) is None,
    decreases n,
{
    if i + 16 <= s.len() && dec_u64_at(s, i + 8) <= usize::MAX as u64 {
        lemma_take_pairs_short(s, i + 16, (n - 1) as nat);
    }
}

/// A record whose byte length disagrees with its pair count is corrupt.
proof fn lemma_dec_rev_wrong_len(s: Seq<u8>, freq: usize, n: usize)
    requires
        16 <= s.len(),
        dec_u64_at(s, 0) <= usize::MAX as u64,
        freq == dec_u64_at(s, 0) as usize,
        n as u64 == dec_u64_at(s, 8),
        s.len() - 16 != 16 * n,
    ensures
        dec_rev_at(s) is None,
{
}

} // verus!
