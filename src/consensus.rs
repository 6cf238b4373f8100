//! Relay weights from a consensus document: each line that holds `Bandwidth=<digits>` names one
//! relay, whatever surrounds it.
use crate::crypto::{sha3_256, sha3_256_of};
use vstd::prelude::*;

verus! {

/// A relay of the consensus, with its weight.
#[derive(Clone, Copy, Debug, PartialEq, Eq)]
pub struct Relay {
    pub weight: u32,
}

/// `Bandwidth=` in ASCII.
pub open spec fn marker() -> Seq<u8> {
    seq![66u8, 97, 110, 100, 119, 105, 100, 116, 104, 61]
}

pub open spec fn is_digit(b: u8) -> bool {
    48 <= b <= 57
}

/// `Bandwidth=` followed by a digit starts at `p`.
pub open spec fn marker_at(line: Seq<u8>, p: int) -> bool {
    0 <= p && p + 11 <= line.len() && line.subrange(p, p + 10) == marker() && is_digit(line[p + 10])
}

/// The first position at or after `p` where `Bandwidth=` and a digit start.
pub open spec fn first_marker_from(line: Seq<u8>, p: int) -> Option<int>
    decreases line.len() - p,
{
    if p < 0 || p + 11 > line.len() {
        None
    } else if marker_at(line, p) {
        Some(p)
    } else {
        first_marker_from(line, p + 1)
    }
}

/// The end of the run of digits that starts at `q`.
pub open spec fn digits_end(line: Seq<u8>, q: int) -> int
    decreases line.len() - q,
{
    if q < 0 || q >= line.len() || !is_digit(line[q]) {
        q
    } else {
        digits_end(line, q + 1)
    }
}

/// The value of a string of decimal digits.
pub open spec fn decimal(s: Seq<u8>) -> nat
    decreases s.len(),
{
    if s.len() == 0 {
        0
    } else {
        (decimal(s.drop_last()) * 10 + (s.last() - 48)) as nat
    }
}

/// The number after the first `Bandwidth=` of the line that a digit follows.
pub open spec fn line_weight(line: Seq<u8>) -> Option<nat> {
    match first_marker_from(line, 0) {
        Some(p) => Some(decimal(line.subrange(p + 10, digits_end(line, p + 10)))),
        None => None,
    }
}

proof fn lemma_decimal_grows(s: Seq<u8>, t: Seq<u8>)
    requires
        forall|i: int| 0 <= i < t.len() ==> is_digit(#[trigger] t[i]),
    ensures
        decimal(s + t) >= decimal(s),
    decreases t.len(),
{
    if t.len() > 0 {
        lemma_decimal_grows(s, t.drop_last());
        assert((s + t).drop_last() =~= s + t.drop_last());
    }
}

proof fn lemma_digits_end_bounds(line: Seq<u8>, q: int)
    requires
        0 <= q <= line.len(),
    ensures
        q <= digits_end(line, q) <= line.len(),
        forall|i: int| q <= i < digits_end(line, q) ==> is_digit(#[trigger] line[i]),
    decreases line.len() - q,
{
    if q < line.len() && is_digit(line[q]) {
        lemma_digits_end_bounds(line, q + 1);
    }
}

fn marker_matches(line: &[u8], p: usize) -> (r: bool)
    requires
        p + 11 <= line.len(),
    ensures
        r == marker_at(line@, p as int),
{
    let expected: [u8; 10] = [66u8, 97, 110, 100, 119, 105, 100, 116, 104, 61];
    assert(expected@ =~= marker());
    let mut i: usize = 0;
    while i < 10
        invariant
            i <= 10,
            p + 11 <= line.len(),
            expected@ == marker(),
            forall|k: int| 0 <= k < i ==> line@[p + k] == marker()[k],
        decreases 10 - i,
    {
        if line[p + i] != expected[i] {
            assert(line@.subrange(p as int, p + 10)[i as int] != marker()[i as int]);
            return false;
        }
        i = i + 1;
    }
    assert(line@.subrange(p as int, p + 10) =~= marker());
    line[p + 10] >= 48 && line[p + 10] <= 57
}

/// The value of the run of digits at `start`, if it fits in a `u32`.
fn parse_digits(line: &[u8], start: usize) -> (r: Option<u32>)
    requires
        start <= line.len(),
    ensures
        ({
            let v = decimal(line@.subrange(start as int, digits_end(line@, start as int)));
            r == if v <= u32::MAX {
                Some(v as u32)
            } else {
                None::<u32>
            }
        }),
{
    proof {
        lemma_digits_end_bounds(line@, start as int);
    }
    let ghost end = digits_end(line@, start as int);
    let mut value: u64 = 0;
    let mut q = start;
    while q < line.len() && line[q] >= 48 && line[q] <= 57
        invariant
            start <= q <= end <= line.len(),
            end == digits_end(line@, start as int),
            digits_end(line@, q as int) == end,
            forall|i: int| start <= i < end ==> is_digit(#[trigger] line@[i]),
            value == decimal(line@.subrange(start as int, q as int)),
            value <= u32::MAX,
        decreases line.len() - q,
    {
        let next = value * 10 + (line[q] - 48) as u64;
        proof {
            lemma_digits_end_bounds(line@, q + 1);
            assert(digits_end(line@, q as int) == digits_end(line@, q + 1));
            assert(line@.subrange(start as int, q + 1).drop_last() =~= line@.subrange(
                start as int,
                q as int,
            ));
        }
        if next > 0xFFFF_FFFF {
            proof {
                let s = line@.subrange(start as int, q + 1);
                let t = line@.subrange(q + 1, end);
                assert forall|i: int| 0 <= i < t.len() implies is_digit(#[trigger] t[i]) by {
                    assert(t[i] == line@[q + 1 + i]);
                }
                lemma_decimal_grows(s, t);
                assert(s + t =~= line@.subrange(start as int, end));
            }
            return None;
        }
        value = next;
        q = q + 1;
    }
    proof {
        if q < line.len() && is_digit(line@[q as int]) {
            assert(false);
        }
        assert(q == end);
    }
    Some(value as u32)
}

/// The relay that a line of the consensus names, if it names one: the number after the first
/// `Bandwidth=` that a digit follows. A number too large for a weight names none.
pub fn relay_of_line(line: &[u8]) -> (r: Option<Relay>)
    ensures
        r == match line_weight(line@) {
            Some(v) => if v <= u32::MAX {
                Some(Relay { weight: v as u32 })
            } else {
                None::<Relay>
            },
            None => None::<Relay>,
        },
{
    let mut p: usize = 0;
    while p < line.len() && line.len() - p >= 11
        invariant
            first_marker_from(line@, 0) == first_marker_from(line@, p as int),
        decreases line.len() - p,
    {
        if marker_matches(line, p) {
            return match parse_digits(line, p + 10) {
                Some(weight) => Some(Relay { weight }),
                None => None,
            };
        }
        p = p + 1;
    }
    None
}

/// `directory-signature ` in ASCII: the signed part of a consensus ends with it.
pub open spec fn signature_marker() -> Seq<u8> {
    seq![100u8, 105, 114, 101, 99, 116, 111, 114, 121, 45, 115, 105, 103, 110, 97, 116, 117, 114, 101, 32]
}

/// The first position at or after `p` where the signature marker starts.
pub open spec fn first_signature_from(content: Seq<u8>, p: int) -> Option<int>
    decreases content.len() - p,
{
    if p < 0 || p + 20 > content.len() {
        None
    } else if content.subrange(p, p + 20) == signature_marker() {
        Some(p)
    } else {
        first_signature_from(content, p + 1)
    }
}

/// An uppercase hexadecimal digit.
pub open spec fn hex_digit(v: u8) -> u8 {
    if v < 10 {
        (48 + v) as u8
    } else {
        (55 + v) as u8
    }
}

/// The bytes in uppercase hexadecimal, two digits each, high nibble first.
pub open spec fn upper_hex(bytes: Seq<u8>) -> Seq<u8> {
    Seq::new(
        2 * bytes.len(),
        |i: int| if i % 2 == 0 {
            hex_digit(bytes[i / 2] / 16)
        } else {
            hex_digit(bytes[i / 2] % 16)
        },
    )
}

/// The digest that names a consensus: SHA3-256 of the document up to and including the first
/// `directory-signature `, in uppercase hexadecimal; nothing when the document has no signature.
pub fn consensus_digest(content: &[u8]) -> (r: Option<Vec<u8>>)
    ensures
        r matches Some(d) ==> (first_signature_from(content@, 0) matches Some(p) && d@ == upper_hex(
            sha3_256(content@.take(p + 20)),
        )),
        r is None ==> first_signature_from(content@, 0) is None,
{
    let needle: [u8; 20] = [
        100u8, 105, 114, 101, 99, 116, 111, 114, 121, 45, 115, 105, 103, 110, 97, 116, 117, 114,
        101, 32,
    ];
    assert(needle@ =~= signature_marker());
    let mut p: usize = 0;
    while p < content.len() && content.len() - p >= 20
        invariant
            needle@ == signature_marker(),
            first_signature_from(content@, 0) == first_signature_from(content@, p as int),
        decreases content.len() - p,
    {
        let mut i: usize = 0;
        let mut found = true;
        while i < 20
            invariant
                i <= 20,
                p + 20 <= content.len(),
                needle@ == signature_marker(),
                found == forall|k: int| 0 <= k < i ==> content@[p + k] == needle@[k],
            decreases 20 - i,
        {
            if content[p + i] != needle[i] {
                found = false;
            }
            i = i + 1;
        }
        if found {
            assert(content@.subrange(p as int, p + 20) =~= signature_marker());
            let mut signed: Vec<u8> = Vec::new();
            let mut j: usize = 0;
            while j < p + 20
                invariant
                    j <= p + 20 <= content.len(),
                    signed@ == content@.take(j as int),
                decreases p + 20 - j,
            {
                signed.push(content[j]);
                j = j + 1;
                assert(signed@ =~= content@.take(j as int));
            }
            let digest = sha3_256_of(signed.as_slice());
            return Some(upper_hex_of(&digest));
        } else {
            assert(content@.subrange(p as int, p + 20) != signature_marker()) by {
                let k = choose|k: int| 0 <= k < 20 && content@[p + k] != needle@[k];
                assert(content@.subrange(p as int, p + 20)[k] != signature_marker()[k]);
            }
        }
        p = p + 1;
    }
    None
}

fn hex_digit_of(v: u8) -> (r: u8)
    requires
        v < 16,
    ensures
        r == hex_digit(v),
{
    if v < 10 {
        48 + v
    } else {
        55 + v
    }
}

fn upper_hex_of(bytes: &[u8; 32]) -> (r: Vec<u8>)
    ensures
        r@ == upper_hex(bytes@),
{
    let mut r: Vec<u8> = Vec::new();
    let mut i: usize = 0;
    while i < 32
        invariant
            i <= 32,
            bytes@.len() == 32,
            r@ == upper_hex(bytes@).take(2 * i),
        decreases 32 - i,
    {
        r.push(hex_digit_of(bytes[i] / 16));
        r.push(hex_digit_of(bytes[i] % 16));
        i = i + 1;
        assert(r@ =~= upper_hex(bytes@).take(2 * i));
    }
    assert(r@ =~= upper_hex(bytes@));
    r
}

} // verus!
