//! The values of the control protocol as text: numbers, keys and addresses,
//! read from bytes and written to bytes.

use crate::ip::{AllowedIP, IpAddr, SocketAddr};
use vstd::prelude::*;
use vstd::string::StringSliceAdditionalSpecFns;

verus! {

/// The byte of the digit `0`.
pub const ZERO: u8 = 48;

/// The byte of the letter `a`.
pub const LOWER_A: u8 = 97;

/// The byte of the letter `A`.
pub const UPPER_A: u8 = 65;

/// The byte that ends a line.
pub const LF: u8 = 10;

/// The byte `=`.
pub const EQUALS: u8 = 61;

/// The byte `:`.
pub const COLON: u8 = 58;

/// The byte `.`.
pub const DOT: u8 = 46;

/// The byte `/`.
pub const SLASH: u8 = 47;

/// The byte `[`.
pub const OPEN: u8 = 91;

/// The byte `]`.
pub const CLOSE: u8 = 93;

/// The place of the first `b` at or after `from`, or the length where there is none.
pub open spec fn find_from(s: Seq<u8>, b: u8, from: int) -> int
    decreases s.len() - from,
{
    if from >= s.len() {
        s.len() as int
    } else if s[from] == b {
        from
    } else {
        find_from(s, b, from + 1)
    }
}

/// The place of the first `b`, or the length where there is none.
pub open spec fn first_index(s: Seq<u8>, b: u8) -> int {
    find_from(s, b, 0)
}

/// What `find_from` finds: no `b` lies before it, and it is a `b` or the end.
pub proof fn lemma_find_from(s: Seq<u8>, b: u8, from: int)
    requires
        0 <= from <= s.len(),
    ensures
        from <= find_from(s, b, from) <= s.len(),
        forall|j: int| from <= j < find_from(s, b, from) ==> s[j] != b,
        find_from(s, b, from) < s.len() ==> s[find_from(s, b, from)] == b,
    decreases s.len() - from,
{
    if from < s.len() && s[from] != b {
        lemma_find_from(s, b, from + 1);
    }
}

/// `find_from` finds the place `k` if no `b` lies between `from` and `k`
/// and `k` is a `b` or the end.
pub proof fn lemma_find_is(s: Seq<u8>, b: u8, from: int, k: int)
    requires
        0 <= from <= k <= s.len(),
        forall|j: int| from <= j < k ==> s[j] != b,
        k < s.len() ==> s[k] == b,
    ensures
        find_from(s, b, from) == k,
    decreases k - from,
{
    if from < k {
        lemma_find_is(s, b, from + 1, k);
    }
}

/// The place of the first `b` in the bytes, or their length.
pub fn find(s: &[u8], b: u8) -> (k: usize)
    ensures
        k == first_index(s@, b),
        k <= s@.len(),
{
    let mut k: usize = 0;
    while k < s.len() && s[k] != b
        invariant
            k <= s@.len(),
            forall|j: int| 0 <= j < k ==> s@[j] != b,
        decreases s@.len() - k,
    {
        k += 1;
    }
    proof {
        lemma_find_is(s@, b, 0, k as int);
    }
    k
}

/// The fields of a text between its separators: one more than there are separators.
pub open spec fn split_seq(s: Seq<u8>, sep: u8) -> Seq<Seq<u8>>
    decreases s.len(),
{
    if s.len() == 0 {
        seq![Seq::empty()]
    } else {
        let before = split_seq(s.drop_last(), sep);
        if s.last() == sep {
            before.push(Seq::empty())
        } else {
            before.update(before.len() - 1, before.last().push(s.last()))
        }
    }
}

/// The fields put together again, with a separator between each two.
pub open spec fn join(parts: Seq<Seq<u8>>, sep: u8) -> Seq<u8>
    decreases parts.len(),
{
    if parts.len() == 0 {
        Seq::empty()
    } else if parts.len() == 1 {
        parts[0]
    } else {
        join(parts.drop_last(), sep).push(sep) + parts.last()
    }
}

/// Whether no byte of the text is `b`.
pub open spec fn free_of(s: Seq<u8>, b: u8) -> bool {
    forall|i: int| 0 <= i < s.len() ==> s[i] != b
}

/// Every text has a field.
pub proof fn lemma_split_nonempty(s: Seq<u8>, sep: u8)
    ensures
        split_seq(s, sep).len() >= 1,
    decreases s.len(),
{
    if s.len() > 0 {
        lemma_split_nonempty(s.drop_last(), sep);
    }
}

/// A text without a separator, put behind another text, lengthens that
/// text's last field and makes no new one.
pub proof fn lemma_split_append(s: Seq<u8>, t: Seq<u8>, sep: u8)
    requires
        free_of(t, sep),
    ensures
        split_seq(s + t, sep).len() == split_seq(s, sep).len(),
        split_seq(s + t, sep) == split_seq(s, sep).update(
            split_seq(s, sep).len() - 1,
            split_seq(s, sep).last() + t,
        ),
    decreases t.len(),
{
    lemma_split_nonempty(s, sep);
    let f = split_seq(s, sep);
    if t.len() == 0 {
        assert(s + t =~= s);
        assert(f.last() + t =~= f.last());
        assert(f.update(f.len() - 1, f.last()) =~= f);
    } else {
        let t0 = t.drop_last();
        lemma_split_append(s, t0, sep);
        assert((s + t).drop_last() =~= s + t0);
        assert((s + t).last() == t.last());
        let g = split_seq(s + t0, sep);
        assert(g.last().push(t.last()) =~= f.last() + t);
        assert(g.update(g.len() - 1, g.last().push(t.last())) =~= f.update(
            f.len() - 1,
            f.last() + t,
        ));
    }
}

/// Splitting what was joined gives the fields back, if there is a field at
/// all and none holds the separator.
pub proof fn lemma_split_join(parts: Seq<Seq<u8>>, sep: u8)
    requires
        parts.len() >= 1,
        forall|i: int| 0 <= i < parts.len() ==> free_of(#[trigger] parts[i], sep),
    ensures
        split_seq(join(parts, sep), sep) == parts,
    decreases parts.len(),
{
    if parts.len() == 1 {
        let e = Seq::<u8>::empty();
        lemma_split_append(e, parts[0], sep);
        assert(e + parts[0] =~= parts[0]);
        assert(split_seq(e, sep) =~= seq![e]);
        assert(split_seq(parts[0], sep) =~= parts);
    } else {
        let head = parts.drop_last();
        lemma_split_join(head, sep);
        let j = join(head, sep).push(sep);
        assert(j.drop_last() =~= join(head, sep));
        assert(split_seq(j, sep) == head.push(Seq::empty()));
        lemma_split_append(j, parts.last(), sep);
        assert(Seq::<u8>::empty() + parts.last() =~= parts.last());
        assert(split_seq(j + parts.last(), sep) =~= parts);
    }
}

/// The fields of the bytes between their separators, each by the places
/// where it begins and ends.
#[verifier::rlimit(40)]
pub fn split(s: &[u8], sep: u8) -> (fields: Vec<(usize, usize)>)
    ensures
        fields@.len() == split_seq(s@, sep).len(),
        forall|k: int|
            0 <= k < fields@.len() ==> (#[trigger] fields@[k]).0 <= fields@[k].1 <= s@.len()
                && s@.subrange(fields@[k].0 as int, fields@[k].1 as int) == split_seq(s@, sep)[k],
{
    let mut fields: Vec<(usize, usize)> = Vec::new();
    let mut start: usize = 0;
    let mut i: usize = 0;
    assert(s@.take(0) =~= Seq::<u8>::empty());
    assert(s@.subrange(0, 0) =~= Seq::<u8>::empty());
    while i < s.len()
        invariant
            start <= i <= s@.len(),
            split_seq(s@.take(i as int), sep).len() == fields@.len() + 1,
            split_seq(s@.take(i as int), sep).last() == s@.subrange(start as int, i as int),
            forall|k: int|
                0 <= k < fields@.len() ==> (#[trigger] fields@[k]).0 <= fields@[k].1 <= s@.len()
                    && s@.subrange(fields@[k].0 as int, fields@[k].1 as int) == split_seq(
                    s@.take(i as int),
                    sep,
                )[k],
        decreases s@.len() - i,
    {
        let ghost before = split_seq(s@.take(i as int), sep);
        assert(s@.take(i + 1).drop_last() =~= s@.take(i as int));
        if s[i] == sep {
            fields.push((start, i));
            start = i + 1;
            assert(s@.subrange(start as int, i + 1) =~= Seq::<u8>::empty());
        } else {
            assert(s@.subrange(start as int, i + 1) =~= before.last().push(s@[i as int]));
        }
        i += 1;
    }
    assert(s@.take(i as int) =~= s@);
    fields.push((start, i));
    fields
}

/// Whether two byte strings are the same.
pub fn same_bytes(a: &[u8], b: &[u8]) -> (same: bool)
    ensures
        same == (a@ == b@),
{
    if a.len() != b.len() {
        return false;
    }
    let mut i: usize = 0;
    while i < a.len()
        invariant
            i <= a@.len(),
            a@.len() == b@.len(),
            forall|j: int| 0 <= j < i ==> a@[j] == b@[j],
        decreases a@.len() - i,
    {
        if a[i] != b[i] {
            return false;
        }
        i += 1;
    }
    assert(a@ =~= b@);
    true
}

/// Whether the byte is a decimal digit.
pub open spec fn is_digit(b: u8) -> bool {
    ZERO <= b <= ZERO + 9
}

/// Whether the bytes are decimal digits, at least one.
pub open spec fn is_decimal(s: Seq<u8>) -> bool {
    s.len() > 0 && forall|i: int| 0 <= i < s.len() ==> is_digit(#[trigger] s[i])
}

/// The number that decimal digits write.
pub open spec fn decimal_value(s: Seq<u8>) -> nat
    decreases s.len(),
{
    if s.len() == 0 {
        0
    } else {
        decimal_value(s.drop_last()) * 10 + (s.last() - ZERO) as nat
    }
}

/// The number that the bytes write in decimal, if they write one that is at most `max`.
pub open spec fn decimal_upto(s: Seq<u8>, max: nat) -> Option<nat> {
    if is_decimal(s) && decimal_value(s) <= max {
        Some(decimal_value(s))
    } else {
        None
    }
}

/// The decimal digits of a number, without leading zeros.
pub open spec fn decimal_text(n: nat) -> Seq<u8>
    decreases n,
{
    if n < 10 {
        seq![(ZERO + n) as u8]
    } else {
        decimal_text(n / 10).push((ZERO + n % 10) as u8)
    }
}

proof fn lemma_decimal_grows(s: Seq<u8>, k: int)
    requires
        0 <= k <= s.len(),
        forall|i: int| 0 <= i < s.len() ==> is_digit(#[trigger] s[i]),
    ensures
        decimal_value(s.take(k)) <= decimal_value(s),
    decreases s.len() - k,
{
    if k < s.len() {
        lemma_decimal_grows(s, k + 1);
        let t = s.take(k + 1);
        assert(t.drop_last() =~= s.take(k));
        assert(decimal_value(t) == decimal_value(s.take(k)) * 10 + (t.last() - ZERO) as nat);
    } else {
        assert(s.take(k) =~= s);
    }
}

/// Reading what was written gives the number back: the decimal text of a
/// number consists of digits and has the number as its value.
pub proof fn lemma_decimal_round_trip(n: nat)
    ensures
        is_decimal(decimal_text(n)),
        decimal_value(decimal_text(n)) == n,
        forall|i: int| 0 <= i < decimal_text(n).len() ==> is_digit(#[trigger] decimal_text(n)[i]),
    decreases n,
{
    if n < 10 {
        let t = decimal_text(n);
        assert(t.drop_last() =~= Seq::<u8>::empty());
        assert(decimal_value(t.drop_last()) == 0);
    } else {
        lemma_decimal_round_trip(n / 10);
        let t = decimal_text(n);
        assert(t.drop_last() =~= decimal_text(n / 10));
    }
}

/// Reads a decimal number of at most `max`.
pub fn parse_decimal(s: &[u8], max: u64) -> (n: Option<u64>)
    ensures
        match n {
            Some(v) => decimal_upto(s@, max as nat) == Some(v as nat),
            None => decimal_upto(s@, max as nat) is None,
        },
{
    if s.len() == 0 {
        return None;
    }
    let mut acc: u64 = 0;
    let mut i: usize = 0;
    while i < s.len()
        invariant
            i <= s@.len(),
            forall|j: int| 0 <= j < i ==> is_digit(#[trigger] s@[j]),
            acc == decimal_value(s@.take(i as int)),
            acc <= max,
        decreases s@.len() - i,
    {
        let b = s[i];
        if b < ZERO || b > ZERO + 9 {
            return None;
        }
        let d: u64 = (b - ZERO) as u64;
        proof {
            let t = s@.take(i + 1);
            assert(t.drop_last() =~= s@.take(i as int));
            assert(decimal_value(t) == acc * 10 + d);
        }
        if d > max || acc > (max - d) / 10 {
            proof {
                if is_decimal(s@) {
                    lemma_decimal_grows(s@, i + 1);
                }
            }
            return None;
        }
        acc = acc * 10 + d;
        i += 1;
    }
    assert(s@.take(i as int) =~= s@);
    Some(acc)
}

/// Writes a number in decimal.
pub fn write_decimal(out: &mut Vec<u8>, n: u64)
    ensures
        final(out)@ == old(out)@ + decimal_text(n as nat),
    decreases n,
{
    if n >= 10 {
        write_decimal(out, n / 10);
    }
    let d: u8 = (n % 10) as u8;
    out.push(ZERO + d);
    proof {
        if n < 10 {
            assert(out@ =~= old(out)@ + decimal_text(n as nat));
        } else {
            assert(out@ =~= old(out)@ + decimal_text(n as nat));
        }
    }
}

/// The value of a hexadecimal digit, in either case.
pub open spec fn hex_digit(b: u8) -> Option<u8> {
    if ZERO <= b <= ZERO + 9 {
        Some((b - ZERO) as u8)
    } else if LOWER_A <= b <= LOWER_A + 5 {
        Some((b - LOWER_A + 10) as u8)
    } else if UPPER_A <= b <= UPPER_A + 5 {
        Some((b - UPPER_A + 10) as u8)
    } else {
        None
    }
}

/// The hexadecimal digit of a value below 16, in lower case.
pub open spec fn hex_char(v: int) -> u8 {
    if v < 10 {
        (ZERO + v) as u8
    } else {
        (LOWER_A + v - 10) as u8
    }
}

/// Whether every byte is a hexadecimal digit.
pub open spec fn is_hex(s: Seq<u8>) -> bool {
    forall|i: int| 0 <= i < s.len() ==> hex_digit(#[trigger] s[i]) is Some
}

/// The 32 bytes that 64 hexadecimal digits write, two digits to a byte.
pub open spec fn key_value(s: Seq<u8>) -> Option<Seq<u8>> {
    if s.len() == 64 && is_hex(s) {
        Some(
            Seq::new(
                32,
                |i: int| (hex_digit(s[2 * i]).unwrap() * 16 + hex_digit(s[2 * i + 1]).unwrap()) as u8,
            ),
        )
    } else {
        None
    }
}

/// A key in hexadecimal: two digits in lower case for each byte.
pub open spec fn key_text(key: Seq<u8>) -> Seq<u8> {
    Seq::new(
        2 * key.len(),
        |i: int|
            hex_char(
                if i % 2 == 0 {
                    key[i / 2] as int / 16
                } else {
                    key[i / 2] as int % 16
                },
            ),
    )
}

/// Reading a key that was written gives the key back.
pub proof fn lemma_key_round_trip(key: Seq<u8>)
    requires
        key.len() == 32,
    ensures
        key_value(key_text(key)) == Some(key),
{
    let t = key_text(key);
    assert forall|i: int| 0 <= i < t.len() implies hex_digit(#[trigger] t[i]) is Some by {}
    let v = key_value(t).unwrap();
    assert forall|i: int| 0 <= i < 32 implies v[i] == key[i] by {
        assert(t[2 * i] == hex_char(key[i] as int / 16));
        assert(t[2 * i + 1] == hex_char(key[i] as int % 16));
    }
    assert(v =~= key);
}

/// The value of a hexadecimal digit.
pub fn hex_value(b: u8) -> (v: Option<u8>)
    ensures
        v == hex_digit(b),
        v is Some ==> v.unwrap() < 16,
{
    if b >= ZERO && b <= ZERO + 9 {
        Some(b - ZERO)
    } else if b >= LOWER_A && b <= LOWER_A + 5 {
        Some(b - LOWER_A + 10)
    } else if b >= UPPER_A && b <= UPPER_A + 5 {
        Some(b - UPPER_A + 10)
    } else {
        None
    }
}

/// Reads a key: 64 hexadecimal digits.
pub fn parse_key(s: &[u8]) -> (key: Option<[u8; 32]>)
    ensures
        match key {
            Some(k) => key_value(s@) == Some(k@),
            None => key_value(s@) is None,
        },
{
    if s.len() != 64 {
        return None;
    }
    let mut key: [u8; 32] = [0u8;32];
    let mut i: usize = 0;
    while i < 32
        invariant
            i <= 32,
            s@.len() == 64,
            forall|j: int| 0 <= j < 2 * i ==> hex_digit(#[trigger] s@[j]) is Some,
            forall|j: int|
                0 <= j < i ==> key@[j] == (hex_digit(s@[2 * j]).unwrap() * 16 + hex_digit(
                    s@[2 * j + 1],
                ).unwrap()) as u8,
        decreases 32 - i,
    {
        let hi = match hex_value(s[2 * i]) {
            Some(v) => v,
            None => {
                return None;
            },
        };
        let lo = match hex_value(s[2 * i + 1]) {
            Some(v) => v,
            None => {
                return None;
            },
        };
        key[i] = hi * 16 + lo;
        i += 1;
    }
    assert(key@ =~= key_value(s@).unwrap());
    Some(key)
}

/// Writes a key in hexadecimal.
pub fn write_key(out: &mut Vec<u8>, key: &[u8; 32])
    ensures
        final(out)@ == old(out)@ + key_text(key@),
{
    let mut i: usize = 0;
    while i < 32
        invariant
            i <= 32,
            out@ == old(out)@ + key_text(key@).take(2 * i),
        decreases 32 - i,
    {
        let b = key[i];
        out.push(hex_byte(b / 16));
        out.push(hex_byte(b % 16));
        assert(out@ =~= old(out)@ + key_text(key@).take(2 * (i + 1)));
        i += 1;
    }
    assert(key_text(key@).take(64) =~= key_text(key@));
}

/// The hexadecimal digit of a value below 16, in lower case.
pub fn hex_byte(v: u8) -> (b: u8)
    requires
        v < 16,
    ensures
        b == hex_char(v as int),
{
    if v < 10 {
        ZERO + v
    } else {
        LOWER_A + (v - 10)
    }
}

/// The byte that a field of a dotted address writes: a decimal number of
/// at most 255 without a zero before it.
pub open spec fn octet_value(f: Seq<u8>) -> Option<u8> {
    match decimal_upto(f, 255) {
        Some(v) => if f.len() == 1 || f[0] != ZERO {
            Some(v as u8)
        } else {
            None
        },
        None => None,
    }
}

/// The four octets that a dotted address writes.
pub open spec fn ipv4_value(s: Seq<u8>) -> Option<Seq<u8>> {
    let f = split_seq(s, DOT);
    if f.len() == 4 && forall|i: int| 0 <= i < 4 ==> octet_value(#[trigger] f[i]) is Some {
        Some(Seq::new(4, |i: int| octet_value(f[i]).unwrap()))
    } else {
        None
    }
}

/// Four octets as a dotted address.
pub open spec fn ipv4_text(o: Seq<u8>) -> Seq<u8> {
    join(Seq::new(4, |i: int| decimal_text(o[i] as nat)), DOT)
}

proof fn lemma_decimal_first(n: nat)
    requires
        n >= 1,
    ensures
        decimal_text(n).len() >= 1,
        decimal_text(n)[0] != ZERO,
    decreases n,
{
    if n >= 10 {
        lemma_decimal_first(n / 10);
    }
}

/// Reading a dotted address that was written gives the octets back.
pub proof fn lemma_ipv4_round_trip(o: Seq<u8>)
    requires
        o.len() == 4,
    ensures
        ipv4_value(ipv4_text(o)) == Some(o),
{
    let parts = Seq::new(4, |i: int| decimal_text(o[i] as nat));
    assert forall|i: int| 0 <= i < parts.len() implies free_of(#[trigger] parts[i], DOT)
        && octet_value(parts[i]) == Some(o[i]) by {
        lemma_decimal_round_trip(o[i] as nat);
        if o[i] >= 1 {
            lemma_decimal_first(o[i] as nat);
        }
    }
    lemma_split_join(parts, DOT);
    assert(ipv4_value(ipv4_text(o)).unwrap() =~= o);
}

fn parse_octet(f: &[u8]) -> (o: Option<u8>)
    ensures
        o == octet_value(f@),
{
    match parse_decimal(f, 255) {
        Some(v) => {
            if f.len() == 1 || f[0] != ZERO {
                Some(v as u8)
            } else {
                None
            }
        },
        None => None,
    }
}

/// Reads a dotted address.
pub fn parse_ipv4(s: &[u8]) -> (addr: Option<[u8; 4]>)
    ensures
        match addr {
            Some(o) => ipv4_value(s@) == Some(o@),
            None => ipv4_value(s@) is None,
        },
{
    let fields = split(s, DOT);
    if fields.len() != 4 {
        return None;
    }
    let mut o: [u8; 4] = [0u8;4];
    let mut i: usize = 0;
    while i < 4
        invariant
            i <= 4,
            fields@.len() == 4,
            split_seq(s@, DOT).len() == 4,
            forall|k: int|
                0 <= k < 4 ==> (#[trigger] fields@[k]).0 <= fields@[k].1 <= s@.len() && s@.subrange(
                    fields@[k].0 as int,
                    fields@[k].1 as int,
                ) == split_seq(s@, DOT)[k],
            forall|k: int|
                0 <= k < i ==> octet_value(#[trigger] split_seq(s@, DOT)[k]) == Some(o@[k]),
        decreases 4 - i,
    {
        let (a, b) = fields[i];
        let f = vstd::slice::slice_subrange(s, a, b);
        match parse_octet(f) {
            Some(v) => {
                o[i] = v;
            },
            None => {
                return None;
            },
        }
        i += 1;
    }
    assert(o@ =~= ipv4_value(s@).unwrap());
    Some(o)
}

/// Writes a dotted address.
pub fn write_ipv4(out: &mut Vec<u8>, o: &[u8; 4])
    ensures
        final(out)@ == old(out)@ + ipv4_text(o@),
{
    write_decimal(out, o[0] as u64);
    out.push(DOT);
    write_decimal(out, o[1] as u64);
    out.push(DOT);
    write_decimal(out, o[2] as u64);
    out.push(DOT);
    write_decimal(out, o[3] as u64);
    proof {
        let parts = Seq::new(4, |i: int| decimal_text(o@[i] as nat));
        let three = parts.drop_last();
        let two = three.drop_last();
        let one = two.drop_last();
        assert(join(one, DOT) == parts[0]);
        assert(join(two, DOT) == join(one, DOT).push(DOT) + parts[1]);
        assert(join(three, DOT) == join(two, DOT).push(DOT) + parts[2]);
        assert(join(parts, DOT) == join(three, DOT).push(DOT) + parts[3]);
        assert(out@ =~= old(out)@ + ipv4_text(o@));
    }
}

/// The number that hexadecimal digits write.
pub open spec fn hex_number(f: Seq<u8>) -> nat
    decreases f.len(),
{
    if f.len() == 0 {
        0
    } else {
        hex_number(f.drop_last()) * 16 + hex_digit(f.last()).unwrap() as nat
    }
}

/// The 16 bits that a field of an IPv6 address writes: one to four hexadecimal digits.
pub open spec fn group_value(f: Seq<u8>) -> Option<u16> {
    if 1 <= f.len() <= 4 && is_hex(f) {
        Some(hex_number(f) as u16)
    } else {
        None
    }
}

/// A number in hexadecimal, in lower case and without leading zeros.
pub open spec fn group_text(g: nat) -> Seq<u8>
    decreases g,
{
    if g < 16 {
        seq![hex_char(g as int)]
    } else {
        group_text(g / 16).push(hex_char((g % 16) as int))
    }
}

/// The place of the first empty field at or after `from`, or the number of fields.
pub open spec fn first_empty(f: Seq<Seq<u8>>, from: int) -> int
    decreases f.len() - from,
{
    if from >= f.len() {
        f.len() as int
    } else if f[from].len() == 0 {
        from
    } else {
        first_empty(f, from + 1)
    }
}

/// The number of empty fields that the sign `::` makes where the first
/// empty field is field `k`: two at the beginning or at the end of the
/// address, one in between, three where the sign is the whole address; 0
/// where the empty field comes from no such sign.
pub open spec fn gap_len(f: Seq<Seq<u8>>, k: int) -> int {
    let n = f.len() as int;
    if k == 0 {
        if n >= 3 && f[1].len() == 0 {
            if n == 3 && f[2].len() == 0 {
                3
            } else {
                2
            }
        } else {
            0
        }
    } else if k == n - 1 {
        0
    } else if k == n - 2 && f[n - 1].len() == 0 {
        2
    } else {
        1
    }
}

/// Whether the fields from `from` up to `to` each write 16 bits.
pub open spec fn all_groups(f: Seq<Seq<u8>>, from: int, to: int) -> bool {
    forall|i: int| from <= i < to ==> group_value(#[trigger] f[i]) is Some
}

/// The eight groups that the fields of an IPv6 address write: eight fields,
/// or fewer with the sign `::` once, which stands for the groups of zeros that are missing.
pub open spec fn ipv6_groups(f: Seq<Seq<u8>>) -> Option<Seq<u16>> {
    let n = f.len() as int;
    let k = first_empty(f, 0);
    if k >= n {
        if n == 8 && all_groups(f, 0, 8) {
            Some(Seq::new(8, |i: int| group_value(f[i]).unwrap()))
        } else {
            None
        }
    } else {
        let c = gap_len(f, k);
        let hi = n - k - c;
        if c > 0 && all_groups(f, 0, k) && all_groups(f, k + c, n) && k + hi <= 7 {
            Some(
                Seq::new(
                    8,
                    |i: int|
                        if i < k {
                            group_value(f[i]).unwrap()
                        } else if i >= 8 - hi {
                            group_value(f[n - 8 + i]).unwrap()
                        } else {
                            0u16
                        },
                ),
            )
        } else {
            None
        }
    }
}

/// The octets of eight groups, the upper byte of each group first.
pub open spec fn group_octets(g: Seq<u16>) -> Seq<u8> {
    Seq::new(
        16,
        |j: int|
            if j % 2 == 0 {
                (g[j / 2] / 256) as u8
            } else {
                (g[j / 2] % 256) as u8
            },
    )
}

/// The sixteen octets that an IPv6 address writes.
pub open spec fn ipv6_value(s: Seq<u8>) -> Option<Seq<u8>> {
    match ipv6_groups(split_seq(s, COLON)) {
        Some(g) => Some(group_octets(g)),
        None => None,
    }
}

/// Sixteen octets as an IPv6 address: eight groups in hexadecimal, none left out.
pub open spec fn ipv6_text(o: Seq<u8>) -> Seq<u8> {
    join(Seq::new(8, |i: int| group_text((o[2 * i] * 256 + o[2 * i + 1]) as nat)), COLON)
}

proof fn lemma_first_empty_is(f: Seq<Seq<u8>>, from: int, k: int)
    requires
        0 <= from <= k <= f.len(),
        forall|j: int| from <= j < k ==> (#[trigger] f[j]).len() > 0,
        k < f.len() ==> f[k].len() == 0,
    ensures
        first_empty(f, from) == k,
    decreases k - from,
{
    if from < k {
        lemma_first_empty_is(f, from + 1, k);
    }
}

proof fn lemma_group_round_trip(g: nat)
    requires
        g < 65536,
    ensures
        is_hex(group_text(g)),
        hex_number(group_text(g)) == g,
        group_text(g).len() >= 1,
        g < 16 ==> group_text(g).len() == 1,
        g < 256 ==> group_text(g).len() <= 2,
        g < 4096 ==> group_text(g).len() <= 3,
        group_text(g).len() <= 4,
        free_of(group_text(g), COLON),
        group_value(group_text(g)) == Some(g as u16),
    decreases g,
{
    let t = group_text(g);
    if g < 16 {
        assert(t.drop_last() =~= Seq::<u8>::empty());
        assert(hex_number(t.drop_last()) == 0);
        assert(hex_digit(t[0]) == Some(g as u8));
    } else {
        lemma_group_round_trip(g / 16);
        assert(t.drop_last() =~= group_text(g / 16));
        assert(hex_digit(t.last()) == Some((g % 16) as u8));
        assert forall|i: int| 0 <= i < t.len() implies hex_digit(#[trigger] t[i]) is Some
            && t[i] != COLON by {
            if i < t.len() - 1 {
                assert(t[i] == group_text(g / 16)[i]);
            }
        }
    }
}

/// Reading an IPv6 address that was written gives the octets back.
#[verifier::rlimit(40)]
pub proof fn lemma_ipv6_round_trip(o: Seq<u8>)
    requires
        o.len() == 16,
    ensures
        ipv6_value(ipv6_text(o)) == Some(o),
{
    let parts = Seq::new(8, |i: int| group_text((o[2 * i] * 256 + o[2 * i + 1]) as nat));
    assert forall|i: int| 0 <= i < parts.len() implies free_of(#[trigger] parts[i], COLON)
        && parts[i].len() > 0 && group_value(parts[i]) == Some(
        (o[2 * i] * 256 + o[2 * i + 1]) as u16,
    ) by {
        lemma_group_round_trip((o[2 * i] * 256 + o[2 * i + 1]) as nat);
    }
    lemma_split_join(parts, COLON);
    lemma_first_empty_is(parts, 0, 8);
    let g = ipv6_groups(parts).unwrap();
    assert forall|j: int| 0 <= j < 16 implies group_octets(g)[j] == o[j] by {
        let i = j / 2;
        assert(g[i] == (o[2 * i] * 256 + o[2 * i + 1]) as u16);
    }
    assert(group_octets(g) =~= o);
}

fn parse_group(f: &[u8]) -> (g: Option<u16>)
    ensures
        g == group_value(f@),
{
    if f.len() < 1 || f.len() > 4 {
        return None;
    }
    let mut acc: u16 = 0;
    let mut i: usize = 0;
    while i < f.len()
        invariant
            i <= f@.len() <= 4,
            forall|j: int| 0 <= j < i ==> hex_digit(#[trigger] f@[j]) is Some,
            acc == hex_number(f@.take(i as int)),
            i == 0 ==> acc == 0,
            i == 1 ==> acc < 16,
            i == 2 ==> acc < 256,
            i == 3 ==> acc < 4096,
        decreases f@.len() - i,
    {
        let d = match hex_value(f[i]) {
            Some(d) => d,
            None => {
                return None;
            },
        };
        proof {
            let t = f@.take(i + 1);
            assert(t.drop_last() =~= f@.take(i as int));
        }
        acc = acc * 16 + d as u16;
        i += 1;
    }
    assert(f@.take(i as int) =~= f@);
    Some(acc)
}

#[verifier::rlimit(40)]
fn parse_groups(
    s: &[u8],
    fields: &Vec<(usize, usize)>,
    from: usize,
    count: usize,
    groups: &mut [u16; 8],
    at: usize,
) -> (ok: bool)
    requires
        from + count <= fields@.len(),
        at + count <= 8,
        fields@.len() == split_seq(s@, COLON).len(),
        forall|k: int|
            0 <= k < fields@.len() ==> (#[trigger] fields@[k]).0 <= fields@[k].1 <= s@.len()
                && s@.subrange(fields@[k].0 as int, fields@[k].1 as int) == split_seq(s@, COLON)[k],
    ensures
        ok == all_groups(split_seq(s@, COLON), from as int, from + count),
        ok ==> forall|j: int|
            at <= j < at + count ==> #[trigger] final(groups)@[j] == group_value(
                split_seq(s@, COLON)[from + (j - at)],
            ).unwrap(),
        forall|i: int| 0 <= i < 8 && !(at <= i < at + count) ==> final(groups)@[i] == old(groups)@[i],
{
    let ghost f = split_seq(s@, COLON);
    let total = fields.len();
    let mut i: usize = 0;
    while i < count
        invariant
            i <= count,
            total == fields@.len(),
            from + count <= fields@.len(),
            at + count <= 8,
            f == split_seq(s@, COLON),
            fields@.len() == f.len(),
            forall|k: int|
                0 <= k < fields@.len() ==> (#[trigger] fields@[k]).0 <= fields@[k].1 <= s@.len()
                    && s@.subrange(fields@[k].0 as int, fields@[k].1 as int) == f[k],
            forall|k: int| from <= k < from + i ==> group_value(#[trigger] f[k]) is Some,
            forall|j: int|
                at <= j < at + i ==> #[trigger] groups@[j] == group_value(f[from + (j - at)]).unwrap(),
            forall|j: int| 0 <= j < 8 && !(at <= j < at + count) ==> groups@[j] == old(groups)@[j],
        decreases count - i,
    {
        let (a, b) = fields[from + i];
        let field = vstd::slice::slice_subrange(s, a, b);
        match parse_group(field) {
            Some(g) => {
                groups[at + i] = g;
            },
            None => {
                assert(group_value(f[from + i]) is None);
                return false;
            },
        }
        i += 1;
    }
    true
}

/// Whether field `k` is empty.
fn field_is_empty(s: &[u8], fields: &Vec<(usize, usize)>, k: usize) -> (empty: bool)
    requires
        k < fields@.len(),
        fields@.len() == split_seq(s@, COLON).len(),
        forall|j: int|
            0 <= j < fields@.len() ==> (#[trigger] fields@[j]).0 <= fields@[j].1 <= s@.len()
                && s@.subrange(fields@[j].0 as int, fields@[j].1 as int) == split_seq(s@, COLON)[j],
    ensures
        empty == (split_seq(s@, COLON)[k as int].len() == 0),
{
    assert(split_seq(s@, COLON)[k as int].len() == fields@[k as int].1 - fields@[k as int].0);
    fields[k].0 == fields[k].1
}

/// The place of the first empty field and the number of fields of the sign `::`.
#[verifier::rlimit(40)]
fn find_gap(s: &[u8], fields: &Vec<(usize, usize)>) -> (gap: (usize, usize))
    requires
        fields@.len() == split_seq(s@, COLON).len(),
        forall|j: int|
            0 <= j < fields@.len() ==> (#[trigger] fields@[j]).0 <= fields@[j].1 <= s@.len()
                && s@.subrange(fields@[j].0 as int, fields@[j].1 as int) == split_seq(s@, COLON)[j],
    ensures
        gap.0 == first_empty(split_seq(s@, COLON), 0),
        gap.0 <= fields@.len(),
        gap.0 < fields@.len() ==> gap.1 == gap_len(split_seq(s@, COLON), gap.0 as int) && gap.0
            + gap.1 <= fields@.len(),
{
    let ghost f = split_seq(s@, COLON);
    let n = fields.len();
    let mut k: usize = 0;
    while k < n && !field_is_empty(s, fields, k)
        invariant
            k <= n,
            n == fields@.len(),
            f == split_seq(s@, COLON),
            fields@.len() == f.len(),
            forall|j: int|
                0 <= j < fields@.len() ==> (#[trigger] fields@[j]).0 <= fields@[j].1 <= s@.len()
                    && s@.subrange(fields@[j].0 as int, fields@[j].1 as int) == f[j],
            forall|j: int| 0 <= j < k ==> (#[trigger] f[j]).len() > 0,
        decreases n - k,
    {
        k += 1;
    }
    proof {
        lemma_first_empty_is(f, 0, k as int);
    }
    if k == n {
        return (k, 0);
    }
    let c: usize = if k == 0 {
        if n >= 3 && field_is_empty(s, fields, 1) {
            if n == 3 && field_is_empty(s, fields, 2) {
                3
            } else {
                2
            }
        } else {
            0
        }
    } else if k == n - 1 {
        0
    } else if k == n - 2 && field_is_empty(s, fields, n - 1) {
        2
    } else {
        1
    };
    (k, c)
}

/// The octets of eight groups.
fn octets_of(groups: &[u16; 8]) -> (o: [u8; 16])
    ensures
        o@ == group_octets(groups@),
{
    let mut o: [u8; 16] = [0u8;16];
    let mut i: usize = 0;
    while i < 8
        invariant
            i <= 8,
            forall|j: int| 0 <= j < 2 * i ==> o@[j] == group_octets(groups@)[j],
        decreases 8 - i,
    {
        o[2 * i] = (groups[i] / 256) as u8;
        o[2 * i + 1] = (groups[i] % 256) as u8;
        i += 1;
    }
    assert(o@ =~= group_octets(groups@));
    o
}

/// Reads the eight groups of an IPv6 address.
#[verifier::rlimit(40)]
fn parse_ipv6_groups(s: &[u8]) -> (groups: Option<[u16; 8]>)
    ensures
        match groups {
            Some(g) => ipv6_groups(split_seq(s@, COLON)) == Some(g@),
            None => ipv6_groups(split_seq(s@, COLON)) is None,
        },
{
    let fields = split(s, COLON);
    let ghost f = split_seq(s@, COLON);
    let n = fields.len();
    let (k, c) = find_gap(s, &fields);
    let mut groups: [u16; 8] = [0u16;8];
    if k == n {
        if n != 8 {
            return None;
        }
        if !parse_groups(s, &fields, 0, 8, &mut groups, 0) {
            return None;
        }
        proof {
            let g = ipv6_groups(f).unwrap();
            assert forall|j: int| 0 <= j < 8 implies groups@[j] == g[j] by {
                assert(groups@[j] == group_value(f[0 + (j - 0)]).unwrap());
            }
            assert(groups@ =~= g);
        }
        return Some(groups);
    }
    if c == 0 {
        return None;
    }
    let hi = n - k - c;
    if k + hi > 7 {
        return None;
    }
    if !parse_groups(s, &fields, 0, k, &mut groups, 0) {
        return None;
    }
    if !parse_groups(s, &fields, k + c, hi, &mut groups, 8 - hi) {
        return None;
    }
    proof {
        let g = ipv6_groups(f).unwrap();
        assert forall|j: int| 0 <= j < 8 implies groups@[j] == g[j] by {
            if j < k {
                assert(groups@[j] == group_value(f[0 + (j - 0)]).unwrap());
            } else if j >= 8 - hi {
                assert(groups@[j] == group_value(f[(n - hi) + (j - (8 - hi))]).unwrap());
            }
        }
        assert(groups@ =~= g);
    }
    Some(groups)
}

/// Reads an IPv6 address.
pub fn parse_ipv6(s: &[u8]) -> (addr: Option<[u8; 16]>)
    ensures
        match addr {
            Some(o) => ipv6_value(s@) == Some(o@),
            None => ipv6_value(s@) is None,
        },
{
    match parse_ipv6_groups(s) {
        Some(groups) => Some(octets_of(&groups)),
        None => None,
    }
}

fn write_group(out: &mut Vec<u8>, g: u16)
    ensures
        final(out)@ == old(out)@ + group_text(g as nat),
    decreases g,
{
    if g >= 16 {
        write_group(out, g / 16);
    }
    out.push(hex_byte((g % 16) as u8));
    assert(out@ =~= old(out)@ + group_text(g as nat));
}

/// Writes an IPv6 address, every group of it.
pub fn write_ipv6(out: &mut Vec<u8>, o: &[u8; 16])
    ensures
        final(out)@ == old(out)@ + ipv6_text(o@),
{
    let ghost parts = Seq::new(8, |i: int| group_text((o@[2 * i] * 256 + o@[2 * i + 1]) as nat));
    let mut i: usize = 0;
    assert(join(parts.take(0), COLON) =~= Seq::<u8>::empty());
    while i < 8
        invariant
            i <= 8,
            parts == Seq::new(8, |i: int| group_text((o@[2 * i] * 256 + o@[2 * i + 1]) as nat)),
            out@ == old(out)@ + join(parts.take(i as int), COLON),
        decreases 8 - i,
    {
        if i > 0 {
            out.push(COLON);
        }
        let g: u16 = (o[2 * i] as u16) * 256 + (o[2 * i + 1] as u16);
        write_group(out, g);
        proof {
            let now = parts.take(i + 1);
            assert(now.drop_last() =~= parts.take(i as int));
            assert(now.last() == parts[i as int]);
            assert(out@ =~= old(out)@ + join(now, COLON));
        }
        i += 1;
    }
    assert(parts.take(8) =~= parts);
}

/// The address of a family with these octets.
pub open spec fn addr_of(v6: bool, octets: Seq<u8>) -> IpAddr {
    if v6 {
        IpAddr::V6(choose|a: [u8; 16]| a@ == octets)
    } else {
        IpAddr::V4(choose|a: [u8; 4]| a@ == octets)
    }
}

/// An address is the address of its family with its octets.
pub proof fn lemma_addr_of(a: IpAddr)
    ensures
        addr_of(a.is_v6(), a.octets()) == a,
{
    match a {
        IpAddr::V4(o) => {
            let c = choose|c: [u8; 4]| c@ == o@;
            assert(c =~= o);
        },
        IpAddr::V6(o) => {
            let c = choose|c: [u8; 16]| c@ == o@;
            assert(c =~= o);
        },
    }
}

/// The address that a text writes: a dotted IPv4 address, or an IPv6 address.
pub open spec fn ip_value(s: Seq<u8>) -> Option<IpAddr> {
    match ipv4_value(s) {
        Some(o) => Some(addr_of(false, o)),
        None => match ipv6_value(s) {
            Some(o) => Some(addr_of(true, o)),
            None => None,
        },
    }
}

/// An address as text.
pub open spec fn ip_text(a: IpAddr) -> Seq<u8> {
    match a {
        IpAddr::V4(o) => ipv4_text(o@),
        IpAddr::V6(o) => ipv6_text(o@),
    }
}

/// Fields that are free of a byte stay free of it when they are joined by another byte.
pub proof fn lemma_join_free(parts: Seq<Seq<u8>>, sep: u8, b: u8)
    requires
        sep != b,
        forall|i: int| 0 <= i < parts.len() ==> free_of(#[trigger] parts[i], b),
    ensures
        free_of(join(parts, sep), b),
    decreases parts.len(),
{
    if parts.len() >= 2 {
        lemma_join_free(parts.drop_last(), sep, b);
        assert(free_of(parts.last(), b));
    } else if parts.len() == 1 {
        assert(free_of(parts[0], b));
    }
}

/// A text without separator is one field.
pub proof fn lemma_split_single(s: Seq<u8>, sep: u8)
    requires
        free_of(s, sep),
    ensures
        split_seq(s, sep) == seq![s],
{
    let e = Seq::<u8>::empty();
    lemma_split_append(e, s, sep);
    assert(e + s =~= s);
    assert(split_seq(e, sep) =~= seq![e]);
    assert(split_seq(s, sep) =~= seq![s]);
}

/// An address as text holds digits, letters, dots and colons only, and the
/// text of an IPv4 address no colon, that of an IPv6 address no dot.
pub proof fn lemma_ip_text_bytes(a: IpAddr)
    ensures
        free_of(ip_text(a), SLASH),
        free_of(ip_text(a), CLOSE),
        free_of(ip_text(a), LF),
        a is V4 ==> free_of(ip_text(a), COLON),
        a is V6 ==> free_of(ip_text(a), DOT),
{
    match a {
        IpAddr::V4(o) => {
            let parts = Seq::new(4, |i: int| decimal_text(o@[i] as nat));
            assert forall|i: int| 0 <= i < parts.len() implies free_of(#[trigger] parts[i], SLASH)
                && free_of(parts[i], CLOSE) && free_of(parts[i], COLON) && free_of(parts[i], LF) by {
                lemma_decimal_round_trip(o@[i] as nat);
            }
            lemma_join_free(parts, DOT, SLASH);
            lemma_join_free(parts, DOT, CLOSE);
            lemma_join_free(parts, DOT, COLON);
            lemma_join_free(parts, DOT, LF);
        },
        IpAddr::V6(o) => {
            let parts = Seq::new(8, |i: int| group_text((o@[2 * i] * 256 + o@[2 * i + 1]) as nat));
            assert forall|i: int| 0 <= i < parts.len() implies free_of(#[trigger] parts[i], SLASH)
                && free_of(parts[i], CLOSE) && free_of(parts[i], DOT) && free_of(parts[i], LF) by {
                lemma_group_round_trip((o@[2 * i] * 256 + o@[2 * i + 1]) as nat);
                let t = parts[i];
                assert forall|j: int| 0 <= j < t.len() implies t[j] != SLASH && t[j] != CLOSE
                    && t[j] != DOT && t[j] != LF by {
                    assert(hex_digit(t[j]) is Some);
                }
            }
            lemma_join_free(parts, COLON, SLASH);
            lemma_join_free(parts, COLON, CLOSE);
            lemma_join_free(parts, COLON, DOT);
            lemma_join_free(parts, COLON, LF);
        },
    }
}

/// Reading an address that was written gives the address back.
pub proof fn lemma_ip_round_trip(a: IpAddr)
    ensures
        ip_value(ip_text(a)) == Some(a),
{
    lemma_addr_of(a);
    match a {
        IpAddr::V4(o) => {
            lemma_ipv4_round_trip(o@);
        },
        IpAddr::V6(o) => {
            lemma_ipv6_round_trip(o@);
            lemma_ip_text_bytes(a);
            lemma_split_single(ipv6_text(o@), DOT);
        },
    }
}

/// Reads an address.
pub fn parse_ip(s: &[u8]) -> (addr: Option<IpAddr>)
    ensures
        addr == ip_value(s@),
{
    match parse_ipv4(s) {
        Some(o) => {
            proof {
                lemma_addr_of(IpAddr::V4(o));
            }
            Some(IpAddr::V4(o))
        },
        None => match parse_ipv6(s) {
            Some(o) => {
                proof {
                    lemma_addr_of(IpAddr::V6(o));
                }
                Some(IpAddr::V6(o))
            },
            None => None,
        },
    }
}

/// Writes an address.
pub fn write_ip(out: &mut Vec<u8>, a: &IpAddr)
    ensures
        final(out)@ == old(out)@ + ip_text(*a),
{
    match a {
        IpAddr::V4(o) => write_ipv4(out, o),
        IpAddr::V6(o) => write_ipv6(out, o),
    }
}

/// The block that a text writes: an address, a slash and the number of
/// bits that count, which is at most the number of bits of the address.
pub open spec fn cidr_value(s: Seq<u8>) -> Option<AllowedIP> {
    let f = split_seq(s, SLASH);
    if f.len() == 2 {
        match ip_value(f[0]) {
            Some(addr) => match decimal_upto(f[1], addr.width()) {
                Some(cidr) => Some(AllowedIP { addr, cidr: cidr as u8 }),
                None => None,
            },
            None => None,
        }
    } else {
        None
    }
}

/// A block as text.
pub open spec fn cidr_text(a: AllowedIP) -> Seq<u8> {
    ip_text(a.addr).push(SLASH) + decimal_text(a.cidr as nat)
}

/// Reading a block that was written gives the block back.
pub proof fn lemma_cidr_round_trip(a: AllowedIP)
    requires
        a.valid(),
    ensures
        cidr_value(cidr_text(a)) == Some(a),
{
    lemma_ip_text_bytes(a.addr);
    lemma_ip_round_trip(a.addr);
    lemma_decimal_round_trip(a.cidr as nat);
    let parts = seq![ip_text(a.addr), decimal_text(a.cidr as nat)];
    assert(parts.drop_last() =~= seq![ip_text(a.addr)]);
    assert(join(parts.drop_last(), SLASH) == ip_text(a.addr));
    assert(join(parts, SLASH) =~= cidr_text(a));
    lemma_split_join(parts, SLASH);
}

/// Reads a block.
pub fn parse_cidr(s: &[u8]) -> (block: Option<AllowedIP>)
    ensures
        block == cidr_value(s@),
{
    let fields = split(s, SLASH);
    if fields.len() != 2 {
        return None;
    }
    let (a0, b0) = fields[0];
    let (a1, b1) = fields[1];
    let addr = match parse_ip(vstd::slice::slice_subrange(s, a0, b0)) {
        Some(addr) => addr,
        None => {
            return None;
        },
    };
    match parse_decimal(vstd::slice::slice_subrange(s, a1, b1), addr.bit_width() as u64) {
        Some(cidr) => Some(AllowedIP { addr, cidr: cidr as u8 }),
        None => None,
    }
}

/// Writes a block.
pub fn write_cidr(out: &mut Vec<u8>, a: &AllowedIP)
    ensures
        final(out)@ == old(out)@ + cidr_text(*a),
{
    write_ip(out, &a.addr);
    out.push(SLASH);
    write_decimal(out, a.cidr as u64);
    assert(out@ =~= old(out)@ + cidr_text(*a));
}

/// The socket address that a text writes: a dotted address, a colon and a
/// port, or an IPv6 address in square brackets, a colon and a port.
pub open spec fn endpoint_value(s: Seq<u8>) -> Option<SocketAddr> {
    if s.len() > 0 && s[0] == OPEN {
        let k = first_index(s, CLOSE);
        if k + 1 < s.len() && s[k + 1] == COLON {
            match (ipv6_value(s.subrange(1, k)), decimal_upto(s.subrange(k + 2, s.len() as int), 65535)) {
                (Some(o), Some(port)) => Some(SocketAddr { ip: addr_of(true, o), port: port as u16 }),
                _ => None,
            }
        } else {
            None
        }
    } else {
        let k = first_index(s, COLON);
        if k < s.len() {
            match (ipv4_value(s.subrange(0, k)), decimal_upto(s.subrange(k + 1, s.len() as int), 65535)) {
                (Some(o), Some(port)) => Some(SocketAddr { ip: addr_of(false, o), port: port as u16 }),
                _ => None,
            }
        } else {
            None
        }
    }
}

/// A socket address as text.
pub open spec fn endpoint_text(e: SocketAddr) -> Seq<u8> {
    match e.ip {
        IpAddr::V4(o) => ipv4_text(o@).push(COLON) + decimal_text(e.port as nat),
        IpAddr::V6(o) => (seq![OPEN] + ipv6_text(o@)).push(CLOSE).push(COLON) + decimal_text(
            e.port as nat,
        ),
    }
}

/// Reading a socket address that was written gives it back.
#[verifier::rlimit(40)]
pub proof fn lemma_endpoint_round_trip(e: SocketAddr)
    ensures
        endpoint_value(endpoint_text(e)) == Some(e),
{
    let t = endpoint_text(e);
    let p = decimal_text(e.port as nat);
    lemma_decimal_round_trip(e.port as nat);
    lemma_ip_text_bytes(e.ip);
    lemma_addr_of(e.ip);
    match e.ip {
        IpAddr::V4(o) => {
            let a = ipv4_text(o@);
            lemma_ipv4_round_trip(o@);
            lemma_text_bytes_v4(o@);
            if a.len() > 0 {
                assert(is_digit(a[0]) || a[0] == DOT);
            }
            lemma_find_is(t, COLON, 0, a.len() as int);
            assert(t.subrange(0, a.len() as int) =~= a);
            assert(t.subrange(a.len() as int + 1, t.len() as int) =~= p);
        },
        IpAddr::V6(o) => {
            let a = ipv6_text(o@);
            lemma_ipv6_round_trip(o@);
            lemma_find_is(t, CLOSE, 0, a.len() as int + 1);
            assert(t.subrange(1, a.len() as int + 1) =~= a);
            assert(t.subrange(a.len() as int + 3, t.len() as int) =~= p);
        },
    }
}

proof fn lemma_text_bytes_v4(o: Seq<u8>)
    requires
        o.len() == 4,
    ensures
        forall|i: int|
            0 <= i < ipv4_text(o).len() ==> is_digit(#[trigger] ipv4_text(o)[i]) || ipv4_text(o)[i]
                == DOT,
{
    let parts = Seq::new(4, |i: int| decimal_text(o[i] as nat));
    assert forall|i: int| 0 <= i < parts.len() implies digits_or(#[trigger] parts[i], DOT) by {
        lemma_decimal_round_trip(o[i] as nat);
    }
    lemma_join_digits(parts, DOT);
}

spec fn digits_or(s: Seq<u8>, b: u8) -> bool {
    forall|i: int| 0 <= i < s.len() ==> is_digit(#[trigger] s[i]) || s[i] == b
}

proof fn lemma_join_digits(parts: Seq<Seq<u8>>, sep: u8)
    requires
        forall|i: int| 0 <= i < parts.len() ==> digits_or(#[trigger] parts[i], sep),
    ensures
        digits_or(join(parts, sep), sep),
    decreases parts.len(),
{
    if parts.len() >= 2 {
        lemma_join_digits(parts.drop_last(), sep);
        assert(digits_or(parts.last(), sep));
    } else if parts.len() == 1 {
        assert(digits_or(parts[0], sep));
    }
}

/// Reads a socket address.
#[verifier::rlimit(40)]
pub fn parse_endpoint(s: &[u8]) -> (e: Option<SocketAddr>)
    ensures
        e == endpoint_value(s@),
{
    if s.len() > 0 && s[0] == OPEN {
        let k = find(s, CLOSE);
        if k >= s.len() - 1 || s[k + 1] != COLON {
            return None;
        }
        proof {
            lemma_find_from(s@, CLOSE, 0);
        }
        let addr = parse_ipv6(vstd::slice::slice_subrange(s, 1, k));
        let port = parse_decimal(vstd::slice::slice_subrange(s, k + 2, s.len()), 65535);
        match (addr, port) {
            (Some(o), Some(port)) => {
                proof {
                    lemma_addr_of(IpAddr::V6(o));
                }
                Some(SocketAddr { ip: IpAddr::V6(o), port: port as u16 })
            },
            _ => None,
        }
    } else {
        let k = find(s, COLON);
        if k >= s.len() {
            return None;
        }
        let addr = parse_ipv4(vstd::slice::slice_subrange(s, 0, k));
        let port = parse_decimal(vstd::slice::slice_subrange(s, k + 1, s.len()), 65535);
        match (addr, port) {
            (Some(o), Some(port)) => {
                proof {
                    lemma_addr_of(IpAddr::V4(o));
                }
                Some(SocketAddr { ip: IpAddr::V4(o), port: port as u16 })
            },
            _ => None,
        }
    }
}

/// Writes a socket address.
pub fn write_endpoint(out: &mut Vec<u8>, e: &SocketAddr)
    ensures
        final(out)@ == old(out)@ + endpoint_text(*e),
{
    match &e.ip {
        IpAddr::V4(o) => {
            write_ipv4(out, o);
        },
        IpAddr::V6(o) => {
            out.push(OPEN);
            write_ipv6(out, o);
            out.push(CLOSE);
        },
    }
    out.push(COLON);
    write_decimal(out, e.port as u64);
    assert(out@ =~= old(out)@ + endpoint_text(*e));
}

/// The truth value that a text writes.
pub open spec fn bool_value(s: Seq<u8>) -> Option<bool> {
    if s == "true".spec_bytes() {
        Some(true)
    } else if s == "false".spec_bytes() {
        Some(false)
    } else {
        None
    }
}

/// Reads a truth value.
pub fn parse_bool(s: &[u8]) -> (b: Option<bool>)
    ensures
        b == bool_value(s@),
{
    if same_bytes(s, "true".as_bytes()) {
        Some(true)
    } else if same_bytes(s, "false".as_bytes()) {
        Some(false)
    } else {
        None
    }
}

/// Writes a text.
pub fn write_str(out: &mut Vec<u8>, text: &str)
    ensures
        final(out)@ == old(out)@ + text.spec_bytes(),
{
    out.extend_from_slice(text.as_bytes());
}

} // verus!
