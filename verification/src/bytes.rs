//! Little-endian numbers.
use vstd::prelude::*;

verus! {

/// The lowest `width` bytes of `x`, least significant byte first.
pub open spec fn le_bytes(x: nat, width: nat) -> Seq<u8>
    decreases width,
{
    if width == 0 {
        Seq::empty()
    } else {
        seq![(x % 256) as u8] + le_bytes(x / 256, (width - 1) as nat)
    }
}

/// The number that `s` writes down, least significant byte first.
pub open spec fn le_value(s: Seq<u8>) -> nat
    decreases s.len(),
{
    if s.len() == 0 {
        0
    } else {
        s[0] as nat + 256 * le_value(s.drop_first())
    }
}

/// The first number that does not fit in `width` bytes.
pub open spec fn le_limit(width: nat) -> nat
    decreases width,
{
    if width == 0 {
        1
    } else {
        256 * le_limit((width - 1) as nat)
    }
}

/// `le_bytes` gives `width` bytes, and they read back as the number, provided
/// that it fits.
pub proof fn lemma_le_bytes_read_back(x: nat, width: nat)
    ensures
        le_bytes(x, width).len() == width,
        x < le_limit(width) ==> le_value(le_bytes(x, width)) == x,
    decreases width,
{
    if width > 0 {
        lemma_le_bytes_read_back(x / 256, (width - 1) as nat);
        let s = le_bytes(x, width);
        assert(s.drop_first() =~= le_bytes(x / 256, (width - 1) as nat));
        assert(s[0] == (x % 256) as u8);
    }
}

/// Every byte string is the `le_bytes` of the number that it writes down.
pub proof fn lemma_le_value_writes_back(s: Seq<u8>)
    ensures
        le_bytes(le_value(s), s.len()) == s,
        le_value(s) < le_limit(s.len()),
    decreases s.len(),
{
    if s.len() > 0 {
        let rest = s.drop_first();
        lemma_le_value_writes_back(rest);
        let x = le_value(s);
        assert(x % 256 == s[0] as nat);
        assert(x / 256 == le_value(rest));
        assert(le_bytes(x, s.len()) =~= seq![s[0]] + rest);
        assert(seq![s[0]] + rest =~= s);
    }
}

/// Four bytes that write down a number are worth 1, 2^8, 2^16 and 2^24 each.
pub proof fn law_four_bytes(x: nat)
    requires
        x < 0x1_0000_0000,
    ensures
        ({
            let b = le_bytes(x, 4);
            &&& b.len() == 4
            &&& b[0] + 0x100 * b[1] + 0x1_0000 * b[2] + 0x100_0000 * b[3] == x
        }),
{
    reveal_with_fuel(le_bytes, 5);
}

/// Four bytes read as a number are worth 1, 2^8, 2^16 and 2^24 each.
pub proof fn law_four_bytes_read(b: Seq<u8>)
    requires
        b.len() == 4,
    ensures
        le_value(b) == b[0] + 0x100 * b[1] + 0x1_0000 * b[2] + 0x100_0000 * b[3],
{
    reveal_with_fuel(le_value, 5);
    assert(b.drop_first()[0] == b[1]);
    assert(b.drop_first().drop_first()[0] == b[2]);
    assert(b.drop_first().drop_first().drop_first()[0] == b[3]);
}

/// Eight bytes that write down a number are worth 1, 2^8, and so on to 2^56
/// each.
pub proof fn law_eight_bytes(x: u64)
    ensures
        ({
            let b = le_bytes(x as nat, 8);
            &&& b.len() == 8
            &&& b[0] + 0x100 * b[1] + 0x1_0000 * b[2] + 0x100_0000 * b[3] + 0x1_0000_0000 * b[4]
                + 0x100_0000_0000 * b[5] + 0x1_0000_0000_0000 * b[6] + 0x100_0000_0000_0000 * b[7]
                == x
        }),
{
    reveal_with_fuel(le_bytes, 9);
}

/// Eight bytes read as a number are worth 1, 2^8, and so on to 2^56 each.
pub proof fn law_eight_bytes_read(b: Seq<u8>)
    requires
        b.len() == 8,
    ensures
        le_value(b) == b[0] + 0x100 * b[1] + 0x1_0000 * b[2] + 0x100_0000 * b[3] + 0x1_0000_0000
            * b[4] + 0x100_0000_0000 * b[5] + 0x1_0000_0000_0000 * b[6] + 0x100_0000_0000_0000
            * b[7],
{
    let high = b.skip(4);
    law_four_bytes_read(high);
    reveal_with_fuel(le_value, 5);
    let c = b.drop_first();
    let d = c.drop_first();
    let e = d.drop_first();
    assert(c[0] == b[1] && d[0] == b[2] && e[0] == b[3]);
    assert(e.drop_first() =~= high);
}

/// The four bytes of `x`, least significant first.
pub fn u32_to_le(x: u32) -> (r: [u8; 4])
    ensures
        r@ == le_bytes(x as nat, 4),
        r@[0] + 0x100 * r@[1] + 0x1_0000 * r@[2] + 0x100_0000 * r@[3] == x,
{
    let x1: u32 = x / 256;
    let x2: u32 = x1 / 256;
    let x3: u32 = x2 / 256;
    let r: [u8; 4] = [(x % 256) as u8, (x1 % 256) as u8, (x2 % 256) as u8, (x3 % 256) as u8];
    proof {
        reveal_with_fuel(le_bytes, 5);
        assert(r@ =~= le_bytes(x as nat, 4));
    }
    r
}

/// The eight bytes of `x`, least significant first.
pub fn u64_to_le(x: u64) -> (r: [u8; 8])
    ensures
        r@ == le_bytes(x as nat, 8),
        r@[0] + 0x100 * r@[1] + 0x1_0000 * r@[2] + 0x100_0000 * r@[3] + 0x1_0000_0000 * r@[4]
            + 0x100_0000_0000 * r@[5] + 0x1_0000_0000_0000 * r@[6] + 0x100_0000_0000_0000 * r@[7]
            == x,
{
    let x1: u64 = x / 256;
    let x2: u64 = x1 / 256;
    let x3: u64 = x2 / 256;
    let x4: u64 = x3 / 256;
    let x5: u64 = x4 / 256;
    let x6: u64 = x5 / 256;
    let x7: u64 = x6 / 256;
    let r: [u8; 8] = [
        (x % 256) as u8,
        (x1 % 256) as u8,
        (x2 % 256) as u8,
        (x3 % 256) as u8,
        (x4 % 256) as u8,
        (x5 % 256) as u8,
        (x6 % 256) as u8,
        (x7 % 256) as u8,
    ];
    proof {
        reveal_with_fuel(le_bytes, 9);
        assert(r@ =~= le_bytes(x as nat, 8));
    }
    r
}

/// The number that four bytes write down, least significant first.
pub fn u32_from_le(s: &[u8; 4]) -> (r: u32)
    ensures
        r == le_value(s@),
        r == s@[0] + 0x100 * s@[1] + 0x1_0000 * s@[2] + 0x100_0000 * s@[3],
{
    proof {
        reveal_with_fuel(le_value, 5);
        let t = s@;
        assert(t.drop_first()[0] == t[1]);
        assert(t.drop_first().drop_first()[0] == t[2]);
        assert(t.drop_first().drop_first().drop_first()[0] == t[3]);
    }
    s[0] as u32 + 256 * (s[1] as u32 + 256 * (s[2] as u32 + 256 * (s[3] as u32)))
}

} // verus!
