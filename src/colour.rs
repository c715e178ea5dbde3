use vstd::prelude::*;
use vstd::string::StringSliceAdditionalSpecFns;

verus! {

/// A display colour as red, green and blue channels.
#[derive(Clone, Copy, Debug, PartialEq, Eq, Structural)]
pub struct Rgb {
    pub r: u8,
    pub g: u8,
    pub b: u8,
}

/// The colour of a block whose colour text cannot be read.
pub const FALLBACK_GREY: u8 = 220;

/// The value of one hexadecimal digit, either case.
pub open spec fn hex_digit(c: u8) -> Option<int> {
    if 48 <= c <= 57 {
        Some(c - 48)
    } else if 97 <= c <= 102 {
        Some(c - 87)
    } else if 65 <= c <= 70 {
        Some(c - 55)
    } else {
        None
    }
}

/// Every byte is a hexadecimal digit.
pub open spec fn all_hex(b: Seq<u8>) -> bool {
    forall|i: int| 0 <= i < b.len() ==> (#[trigger] hex_digit(b[i])) is Some
}

/// The number that a run of hexadecimal digits spells.
pub open spec fn hex_value(b: Seq<u8>) -> int
    decreases b.len(),
{
    if b.len() == 0 {
        0
    } else {
        16 * hex_value(b.drop_last()) + hex_digit(b.last())->0
    }
}

/// `b` without its leading `#` characters.
pub open spec fn strip_hashes(b: Seq<u8>) -> Seq<u8>
    decreases b.len(),
{
    if b.len() > 0 && b[0] == 35 {
        strip_hashes(b.subrange(1, b.len() as int))
    } else {
        b
    }
}

/// The digits of a number text: all of it, or what follows one leading `+`.
pub open spec fn digits_of(h: Seq<u8>) -> Seq<u8> {
    if h.len() > 0 && h[0] == 43 {
        h.subrange(1, h.len() as int)
    } else {
        h
    }
}

/// The colour that a text such as `#1a2b3c` names: after any leading `#`,
/// six characters that are hexadecimal digits, or a `+` and five such
/// digits, read as one number; anything else gives the fallback grey.
pub open spec fn colour_of(text: Seq<u8>) -> Rgb {
    let h = strip_hashes(text);
    if h.len() == 6 && all_hex(digits_of(h)) {
        let v = hex_value(digits_of(h));
        Rgb { r: (v / 65536) as u8, g: ((v / 256) % 256) as u8, b: (v % 256) as u8 }
    } else {
        Rgb { r: FALLBACK_GREY, g: FALLBACK_GREY, b: FALLBACK_GREY }
    }
}

fn digit_value(c: u8) -> (r: Option<u32>)
    ensures
        r is Some <==> hex_digit(c) is Some,
        r is Some ==> r->0 as int == hex_digit(c)->0 && r->0 < 16,
{
    if 48 <= c && c <= 57 {
        Some((c - 48) as u32)
    } else if 97 <= c && c <= 102 {
        Some((c - 87) as u32)
    } else if 65 <= c && c <= 70 {
        Some((c - 55) as u32)
    } else {
        None
    }
}

pub open spec fn pow16(n: nat) -> int
    decreases n,
{
    if n == 0 {
        1
    } else {
        16 * pow16((n - 1) as nat)
    }
}

/// Reads a colour text such as `#1a2b3c` (after the `#` characters, a `+`
/// may stand before five digits); anything else gives the fallback grey.
pub fn parse_hex_colour(hex: &str) -> (c: Rgb)
    ensures
        c == colour_of(hex.spec_bytes()),
{
    let b = hex.as_bytes();
    let ghost bs = b@;
    let mut start: usize = 0;
    assert(bs.subrange(0, bs.len() as int) =~= bs);
    while start < b.len() && b[start] == 35
        invariant
            start <= b@.len(),
            bs == b@,
            bs == hex.spec_bytes(),
            strip_hashes(bs) == strip_hashes(bs.subrange(start as int, bs.len() as int)),
        decreases b.len() - start,
    {
        assert(bs.subrange(start as int, bs.len() as int).subrange(1, bs.len() - start) =~= bs.subrange(
            start + 1,
            bs.len() as int,
        ));
        start = start + 1;
    }
    let ghost h = bs.subrange(start as int, bs.len() as int);
    assert(strip_hashes(h) == h);
    let grey = Rgb { r: FALLBACK_GREY, g: FALLBACK_GREY, b: FALLBACK_GREY };
    if b.len() - start != 6 {
        return grey;
    }
    let n = b.len();
    let first: usize = if b[start] == 43 {
        1
    } else {
        0
    };
    let ghost g = digits_of(h);
    assert(g =~= h.subrange(first as int, 6));
    let mut v: u32 = 0;
    let mut i: usize = first;
    while i < 6
        invariant
            b@.len() == start + 6,
            n == b@.len(),
            bs == b@,
            bs == hex.spec_bytes(),
            strip_hashes(bs) == h,
            h == b@.subrange(start as int, b@.len() as int),
            first <= 1,
            g == digits_of(h),
            g == h.subrange(first as int, 6),
            first <= i <= 6,
            all_hex(g.take(i - first)),
            v as int == hex_value(g.take(i - first)),
            v < pow16((i - first) as nat),
        decreases 6 - i,
    {
        let d = digit_value(b[start + i]);
        let ghost j = i - first;
        assert(g[j] == b@[start + i]);
        match d {
            None => {
                assert(!all_hex(g)) by {
                    assert(hex_digit(g[j]) is None);
                }
                return Rgb { r: FALLBACK_GREY, g: FALLBACK_GREY, b: FALLBACK_GREY };
            },
            Some(x) => {
                assert(g.take(j + 1).drop_last() =~= g.take(j));
                assert(pow16((j + 1) as nat) == 16 * pow16(j as nat));
                proof {
                    lemma_pow16_six();
                }
                assert(pow16(j as nat) <= pow16(6)) by {
                    lemma_pow16_mono(j as nat, 6);
                }
                assert(16 * v + x < 16 * pow16(j as nat)) by (nonlinear_arith)
                    requires
                        v < pow16(j as nat),
                        x < 16,
                ;
                v = 16 * v + x;
                assert(all_hex(g.take(j + 1))) by {
                    assert forall|q: int| 0 <= q < j + 1 implies (#[trigger] hex_digit(g.take(j + 1)[q])) is Some by {
                        if q < j {
                            assert(g.take(j + 1)[q] == g.take(j)[q]);
                        }
                    }
                }
                i = i + 1;
            },
        }
    }
    assert(g.take(6 - first) =~= g);
    proof {
        lemma_pow16_six();
        lemma_pow16_mono((6 - first) as nat, 6);
    }
    Rgb { r: (v / 65536) as u8, g: ((v / 256) % 256) as u8, b: (v % 256) as u8 }
}

proof fn lemma_pow16_six()
    ensures
        pow16(6) == 16777216,
{
    assert(pow16(0) == 1);
    assert(pow16(1) == 16);
    assert(pow16(2) == 256);
    assert(pow16(3) == 4096);
    assert(pow16(4) == 65536);
    assert(pow16(5) == 1048576);
}

proof fn lemma_pow16_mono(a: nat, b: nat)
    requires
        a <= b,
    ensures
        pow16(a) <= pow16(b),
        pow16(a) >= 1,
    decreases b,
{
    if b > 0 && a < b {
        lemma_pow16_mono(a, (b - 1) as nat);
    } else if a > 0 {
        lemma_pow16_mono((a - 1) as nat, (a - 1) as nat);
    }
}

} // verus!
