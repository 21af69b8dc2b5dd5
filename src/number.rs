//! Numbers given on the command line: hexadecimal after a leading `0x`,
//! decimal otherwise.
use vstd::prelude::*;
use vstd::string::StringSliceAdditionalSpecFns;

verus! {

pub open spec fn is_digit(c: u8, radix: nat) -> bool {
    ||| '0' as u8 <= c <= '9' as u8
    ||| radix == 16 && 'a' as u8 <= c <= 'f' as u8
    ||| radix == 16 && 'A' as u8 <= c <= 'F' as u8
}

pub open spec fn digit_value(c: u8) -> nat {
    if '0' as u8 <= c <= '9' as u8 {
        (c - '0' as u8) as nat
    } else if 'a' as u8 <= c <= 'f' as u8 {
        (c - 'a' as u8 + 10) as nat
    } else {
        (c - 'A' as u8 + 10) as nat
    }
}

pub open spec fn all_digits(d: Seq<u8>, radix: nat) -> bool {
    forall|i: int| 0 <= i < d.len() ==> is_digit(#[trigger] d[i], radix)
}

/// The value of the digits `d`, most significant first.
pub open spec fn digits_value(d: Seq<u8>, radix: nat) -> nat
    decreases d.len(),
{
    if d.len() == 0 {
        0
    } else {
        digits_value(d.drop_last(), radix) * radix + digit_value(d.last())
    }
}

/// The number that `d` spells in base `radix`: an optional `+`, then one or
/// more digits, with a value that fits in 32 bits.
pub open spec fn radix_number(d: Seq<u8>, radix: nat) -> Option<u32> {
    let body = if d.len() > 0 && d[0] == '+' as u8 {
        d.drop_first()
    } else {
        d
    };
    if body.len() > 0 && all_digits(body, radix) && digits_value(body, radix) <= u32::MAX {
        Some(digits_value(body, radix) as u32)
    } else {
        None
    }
}

pub open spec fn has_hex_prefix(d: Seq<u8>) -> bool {
    d.len() >= 2 && d[0] == '0' as u8 && d[1] == 'x' as u8
}

/// `d` with every leading `0x` taken off.
pub open spec fn strip_hex_prefixes(d: Seq<u8>) -> Seq<u8>
    decreases d.len(),
{
    if has_hex_prefix(d) {
        strip_hex_prefixes(d.skip(2))
    } else {
        d
    }
}

/// The number that the text `d` spells: hexadecimal when it starts with
/// `0x` (all leading `0x` dropped), decimal otherwise.
pub open spec fn number_of(d: Seq<u8>) -> Option<u32> {
    if has_hex_prefix(d) {
        radix_number(strip_hex_prefixes(d), 16)
    } else {
        radix_number(d, 10)
    }
}

fn digit(c: u8, radix: u8) -> (r: Option<u8>)
    requires
        radix == 10 || radix == 16,
    ensures
        r.is_some() == is_digit(c, radix as nat),
        r matches Some(v) ==> v == digit_value(c) && v < radix,
{
    if '0' as u8 <= c && c <= '9' as u8 {
        Some(c - '0' as u8)
    } else if radix == 16 && 'a' as u8 <= c && c <= 'f' as u8 {
        Some(c - 'a' as u8 + 10)
    } else if radix == 16 && 'A' as u8 <= c && c <= 'F' as u8 {
        Some(c - 'A' as u8 + 10)
    } else {
        None
    }
}

/// The number that `b[start..]` spells in base `radix`.
fn radix_value(b: &[u8], start: usize, radix: u8) -> (r: Option<u32>)
    requires
        start <= b@.len(),
        radix == 10 || radix == 16,
    ensures
        r == radix_number(b@.skip(start as int), radix as nat),
{
    let len = b.len();
    let ghost d = b@.skip(start as int);
    let mut first = start;
    if first < len && b[first] == '+' as u8 {
        first += 1;
    }
    let ghost body = b@.subrange(first as int, len as int);
    assert(body =~= if d.len() > 0 && d[0] == '+' as u8 {
        d.drop_first()
    } else {
        d
    });
    if first == len {
        return None;
    }
    let mut acc: u64 = 0;
    let mut over = false;
    let mut i = first;
    assert(b@.subrange(first as int, first as int) =~= Seq::<u8>::empty());
    while i < len
        invariant
            first <= i <= len,
            len == b@.len(),
            radix == 10 || radix == 16,
            body == b@.subrange(first as int, len as int),
            d == b@.skip(start as int),
            body == if d.len() > 0 && d[0] == '+' as u8 {
                d.drop_first()
            } else {
                d
            },
            all_digits(b@.subrange(first as int, i as int), radix as nat),
            over ==> digits_value(b@.subrange(first as int, i as int), radix as nat) > u32::MAX,
            !over ==> acc == digits_value(b@.subrange(first as int, i as int), radix as nat) && acc
                <= u32::MAX,
        decreases len - i,
    {
        let ghost prev = b@.subrange(first as int, i as int);
        let ghost next = b@.subrange(first as int, i + 1);
        assert(next.drop_last() =~= prev);
        assert(next.last() == b@[i as int]);
        match digit(b[i], radix) {
            None => {
                assert(body[i - first] == b@[i as int]);
                assert(!is_digit(body[i - first], radix as nat));
                return None;
            },
            Some(v) => {
                if !over {
                    assert(acc * (radix as u64) + (v as u64) <= 0xFFFF_FFFFu64 * 16 + 15) by (
                    nonlinear_arith)
                        requires
                            acc <= u32::MAX,
                            radix <= 16,
                            v < radix,
                    ;
                    let n = acc * (radix as u64) + (v as u64);
                    if n > u32::MAX as u64 {
                        over = true;
                    } else {
                        acc = n;
                    }
                } else {
                    assert(digits_value(prev, radix as nat) * radix as nat + v >= digits_value(
                        prev,
                        radix as nat,
                    )) by (nonlinear_arith)
                        requires
                            radix >= 1,
                    ;
                }
                assert(all_digits(next, radix as nat)) by {
                    assert forall|j: int| 0 <= j < next.len() implies is_digit(
                        #[trigger] next[j],
                        radix as nat,
                    ) by {
                        if j < prev.len() {
                            assert(next[j] == prev[j]);
                        }
                    }
                }
            },
        }
        i += 1;
    }
    assert(b@.subrange(first as int, i as int) =~= body);
    if over {
        None
    } else {
        Some(acc as u32)
    }
}

/// Reads a number given on the command line: hexadecimal when the text
/// starts with `0x` (every leading `0x` is dropped), decimal otherwise,
/// either one after an optional `+`; `None` when the text is no such
/// number or the number does not fit in 32 bits.
pub fn parse_number(s: &str) -> (r: Option<u32>)
    ensures
        r == number_of(s.spec_bytes()),
{
    let b = s.as_bytes();
    let len = b.len();
    if len >= 2 && b[0] == '0' as u8 && b[1] == 'x' as u8 {
        let mut start: usize = 2;
        assert(b@.skip(2) =~= b@.skip(start as int));
        while len - start >= 2 && b[start] == '0' as u8 && b[start + 1] == 'x' as u8
            invariant
                2 <= start <= len,
                len == b@.len(),
                has_hex_prefix(b@),
                strip_hex_prefixes(b@) == strip_hex_prefixes(b@.skip(start as int)),
            decreases len - start,
        {
            assert(b@.skip(start as int).skip(2) =~= b@.skip(start + 2));
            start += 2;
        }
        radix_value(b, start, 16)
    } else {
        assert(b@.skip(0) =~= b@);
        radix_value(b, 0, 10)
    }
}

} // verus!
