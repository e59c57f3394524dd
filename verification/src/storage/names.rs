use vstd::prelude::*;
use vstd::string::StringExecFns;

verus! {

/// The lower-case hexadecimal digit for `d` (`0` to `15`).
pub open spec fn digit_char(d: int) -> char {
    if d < 10 {
        (48 + d) as char
    } else {
        (87 + d) as char
    }
}

/// The decimal digits of `n`, most significant first, without leading zeros.
pub open spec fn decimal_digits(n: nat) -> Seq<char>
    decreases n,
{
    if n < 10 {
        seq![digit_char(n as int)]
    } else {
        decimal_digits(n / 10).push(digit_char((n % 10) as int))
    }
}

/// `x` in decimal, with a leading `-` when it is negative.
pub open spec fn decimal_text(x: int) -> Seq<char> {
    if x < 0 {
        seq!['-'] + decimal_digits((-x) as nat)
    } else {
        decimal_digits(x as nat)
    }
}

/// `h` as sixteen lower-case hexadecimal digits, most significant first.
pub open spec fn hex_text(h: u64) -> Seq<char> {
    Seq::new(16, |i: int| digit_char(((h >> ((60 - 4 * i) as u64)) & 15u64) as int))
}

/// The file name of a region: `region-<region_x>-<hash as 16 hex digits>.scw`.
pub open spec fn region_file_name_text(region_x: int, content_hash: u64) -> Seq<char> {
    seq!['r', 'e', 'g', 'i', 'o', 'n', '-'] + decimal_text(region_x) + seq!['-'] + hex_text(content_hash) + seq![
        '.',
        's',
        'c',
        'w',
    ]
}

/// The identifier a new world with `seed` gets when `suffix - 1` earlier candidates are
/// taken: `world-<seed as 16 hex digits>`, then `-<suffix>` from the second candidate on.
pub open spec fn world_id_text(seed: u64, suffix: u32) -> Seq<char> {
    let base = seq!['w', 'o', 'r', 'l', 'd', '-'] + hex_text(seed);
    if suffix <= 1 {
        base
    } else {
        base + seq!['-'] + decimal_digits(suffix as nat)
    }
}

fn digit_str(d: u64) -> (result: &'static str)
    requires
        d < 16,
    ensures
        result@ == seq![digit_char(d as int)],
{
    proof {
        reveal_strlit("0");
        reveal_strlit("1");
        reveal_strlit("2");
        reveal_strlit("3");
        reveal_strlit("4");
        reveal_strlit("5");
        reveal_strlit("6");
        reveal_strlit("7");
        reveal_strlit("8");
        reveal_strlit("9");
        reveal_strlit("a");
        reveal_strlit("b");
        reveal_strlit("c");
        reveal_strlit("d");
        reveal_strlit("e");
        reveal_strlit("f");
    }
    if d == 0 {
        "0"
    } else if d == 1 {
        "1"
    } else if d == 2 {
        "2"
    } else if d == 3 {
        "3"
    } else if d == 4 {
        "4"
    } else if d == 5 {
        "5"
    } else if d == 6 {
        "6"
    } else if d == 7 {
        "7"
    } else if d == 8 {
        "8"
    } else if d == 9 {
        "9"
    } else if d == 10 {
        "a"
    } else if d == 11 {
        "b"
    } else if d == 12 {
        "c"
    } else if d == 13 {
        "d"
    } else if d == 14 {
        "e"
    } else {
        "f"
    }
}

/// Appends the decimal digits of `n`.
pub(crate) fn push_decimal(out: &mut String, n: u64)
    ensures
        final(out)@ == old(out)@ + decimal_digits(n as nat),
    decreases n,
{
    if n >= 10 {
        push_decimal(out, n / 10);
    }
    out.append(digit_str(n % 10));
    proof {
        if n >= 10 {
            assert(final(out)@ =~= old(out)@ + decimal_digits(n as nat));
        } else {
            assert(final(out)@ =~= old(out)@ + decimal_digits(n as nat));
        }
    }
}

/// Appends `x` in decimal.
fn push_signed(out: &mut String, x: i64)
    ensures
        final(out)@ == old(out)@ + decimal_text(x as int),
{
    if x < 0 {
        out.append("-");
        proof {
            reveal_strlit("-");
        }
        let magnitude = (0i128 - x as i128) as u64;
        push_decimal(out, magnitude);
        proof {
            assert(final(out)@ =~= old(out)@ + decimal_text(x as int));
        }
    } else {
        push_decimal(out, x as u64);
    }
}

/// Appends the decimal digits of `n`.
pub(crate) fn push_decimal_wide(out: &mut String, n: u128)
    ensures
        final(out)@ == old(out)@ + decimal_digits(n as nat),
    decreases n,
{
    if n >= 10 {
        push_decimal_wide(out, n / 10);
    }
    out.append(digit_str((n % 10) as u64));
    proof {
        assert(final(out)@ =~= old(out)@ + decimal_digits(n as nat));
    }
}

/// Appends `x` in decimal, with a leading `-` when it is negative.
pub(crate) fn push_signed_wide(out: &mut String, x: i128)
    ensures
        final(out)@ == old(out)@ + decimal_text(x as int),
{
    if x < 0 {
        out.append("-");
        proof {
            reveal_strlit("-");
        }
        let magnitude = (-(x + 1)) as u128 + 1;
        push_decimal_wide(out, magnitude);
        proof {
            assert(final(out)@ =~= old(out)@ + decimal_text(x as int));
        }
    } else {
        push_decimal_wide(out, x as u128);
    }
}

/// Appends `h` as sixteen hexadecimal digits.
fn push_hex16(out: &mut String, h: u64)
    ensures
        final(out)@ == old(out)@ + hex_text(h),
{
    let ghost start = out@;
    let mut i: u64 = 0;
    while i < 16
        invariant
            i <= 16,
            out@ == start + hex_text(h).take(i as int),
        decreases 16 - i,
    {
        let shift = 60 - 4 * i;
        let nibble = (h >> shift) & 15;
        assert(nibble < 16) by (bit_vector)
            requires
                nibble == (h >> shift) & 15,
        ;
        out.append(digit_str(nibble));
        proof {
            assert(hex_text(h)[i as int] == digit_char(nibble as int));
            assert(out@ =~= start + hex_text(h).take(i as int + 1));
        }
        i += 1;
    }
    proof {
        assert(hex_text(h).take(16) =~= hex_text(h));
    }
}

/// The file name under which a region with `content_hash` is stored.
pub fn region_file_name(region_x: i64, content_hash: u64) -> (result: String)
    ensures
        result@ == region_file_name_text(region_x as int, content_hash),
{
    proof {
        reveal_strlit("region-");
        reveal_strlit("-");
        reveal_strlit(".scw");
    }
    let mut name = String::from_str("region-");
    push_signed(&mut name, region_x);
    name.append("-");
    push_hex16(&mut name, content_hash);
    name.append(".scw");
    proof {
        assert(name@ =~= region_file_name_text(region_x as int, content_hash));
    }
    name
}

/// The `suffix`-th identifier tried for a new world with `seed` (the first is `1`).
pub fn world_id_candidate(seed: u64, suffix: u32) -> (result: String)
    ensures
        result@ == world_id_text(seed, suffix),
{
    proof {
        reveal_strlit("world-");
        reveal_strlit("-");
    }
    let mut name = String::from_str("world-");
    push_hex16(&mut name, seed);
    if suffix > 1 {
        name.append("-");
        push_decimal(&mut name, suffix as u64);
    }
    proof {
        assert(name@ =~= world_id_text(seed, suffix));
    }
    name
}

/// The upper-case hexadecimal digit for `d` (`0` to `15`).
pub open spec fn upper_digit_char(d: int) -> char {
    if d < 10 {
        (48 + d) as char
    } else {
        (55 + d) as char
    }
}

/// The name a new world gets: `World ` and the low 32 bits of its seed as eight upper-case
/// hexadecimal digits.
pub open spec fn default_world_name_text(seed: u64) -> Seq<char> {
    seq!['W', 'o', 'r', 'l', 'd', ' '] + Seq::new(
        8,
        |i: int| upper_digit_char((((seed as u32) >> ((28 - 4 * i) as u32)) & 15u32) as int),
    )
}

fn upper_digit_str(d: u32) -> (result: &'static str)
    requires
        d < 16,
    ensures
        result@ == seq![upper_digit_char(d as int)],
{
    proof {
        reveal_strlit("A");
        reveal_strlit("B");
        reveal_strlit("C");
        reveal_strlit("D");
        reveal_strlit("E");
        reveal_strlit("F");
    }
    if d < 10 {
        digit_str(d as u64)
    } else if d == 10 {
        "A"
    } else if d == 11 {
        "B"
    } else if d == 12 {
        "C"
    } else if d == 13 {
        "D"
    } else if d == 14 {
        "E"
    } else {
        "F"
    }
}

/// The name a new world with `seed` gets (see `default_world_name_text`).
pub fn default_world_name(seed: u64) -> (result: String)
    ensures
        result@ == default_world_name_text(seed),
{
    proof {
        reveal_strlit("World ");
    }
    let low = seed as u32;
    let mut name = String::from_str("World ");
    let ghost start = name@;
    let mut i: u32 = 0;
    while i < 8
        invariant
            i <= 8,
            low == seed as u32,
            start == seq!['W', 'o', 'r', 'l', 'd', ' '],
            name@ == start + default_world_name_text(seed).skip(6).take(i as int),
        decreases 8 - i,
    {
        let shift: u32 = 28 - 4 * i;
        let nibble = (low >> shift) & 15;
        assert(nibble < 16) by (bit_vector)
            requires
                nibble == (low >> shift) & 15,
        ;
        name.append(upper_digit_str(nibble));
        proof {
            assert(default_world_name_text(seed).skip(6)[i as int] == upper_digit_char(nibble as int));
            assert(name@ =~= start + default_world_name_text(seed).skip(6).take(i as int + 1));
        }
        i += 1;
    }
    proof {
        assert(default_world_name_text(seed).skip(6).take(8) =~= default_world_name_text(seed).skip(6));
        assert(name@ =~= default_world_name_text(seed));
    }
    name
}

} // verus!
