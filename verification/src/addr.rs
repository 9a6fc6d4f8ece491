//! Validated `host:port` endpoints.
//!
//! A peer is addressed by an IPv4 socket address. The library keeps the
//! parsed form (`PeerAddr`) and defines the canonical text rendering
//! `o0.o1.o2.o3:port` (decimal, no leading zeros). `parse_addr` accepts
//! exactly the canonical renderings, and `format_addr` produces them.

use vstd::prelude::*;

verus! {

/// A validated IPv4 socket address: what the decision logic reads of a
/// peer endpoint. Two peers are the same endpoint exactly when the four
/// octets and the port agree.
#[derive(PartialEq, Eq, Structural, Clone, Copy, Debug)]
pub struct PeerAddr {
    pub o0: u8,
    pub o1: u8,
    pub o2: u8,
    pub o3: u8,
    pub port: u16,
}

/// One ASCII decimal digit byte (`'0'` through `'9'`).
pub open spec fn is_digit(b: u8) -> bool {
    48 <= b && b <= 57
}

/// Decimal rendering of `n`: most significant digit first, no leading zeros.
pub open spec fn dec(n: nat) -> Seq<u8>
    decreases n,
{
    if n < 10 {
        seq![(48 + n) as u8]
    } else {
        dec(n / 10) + seq![(48 + n % 10) as u8]
    }
}

/// The canonical text of an address: `o0.o1.o2.o3:port`.
pub open spec fn addr_bytes(a: PeerAddr) -> Seq<u8> {
    dec(a.o0 as nat) + seq![46u8] + dec(a.o1 as nat) + seq![46u8] + dec(a.o2 as nat) + seq![46u8]
        + dec(a.o3 as nat) + seq![58u8] + dec(a.port as nat)
}

/// How many leading bytes of `s` are decimal digits.
pub open spec fn digit_prefix_len(s: Seq<u8>) -> nat
    decreases s.len(),
{
    if s.len() == 0 || !is_digit(s[0]) {
        0
    } else {
        (1 + digit_prefix_len(s.drop_first())) as nat
    }
}

/// The numeric value of a digit string, most significant digit first.
pub open spec fn num_val(s: Seq<u8>) -> int
    decreases s.len(),
{
    if s.len() == 0 {
        0
    } else {
        num_val(s.drop_last()) * 10 + s.last() - 48
    }
}

/// Ten to the `n`.
pub open spec fn pow10(n: nat) -> int
    decreases n,
{
    if n == 0 {
        1
    } else {
        10 * pow10((n - 1) as nat)
    }
}

/// Parse a leading decimal number with no leading zero; return its value
/// and the unconsumed rest.
pub open spec fn parse_num(s: Seq<u8>) -> Option<(int, Seq<u8>)> {
    let k = digit_prefix_len(s);
    if k == 0 {
        None
    } else if s[0] == 48 && k > 1 {
        None
    } else {
        Some((num_val(s.take(k as int)), s.skip(k as int)))
    }
}

/// `parse_num`, refused when the value exceeds `max`.
pub open spec fn parse_bounded(s: Seq<u8>, max: int) -> Option<(int, Seq<u8>)> {
    match parse_num(s) {
        Some((n, rest)) => if n <= max {
            Some((n, rest))
        } else {
            None
        },
        None => None,
    }
}

/// Consume one expected byte.
pub open spec fn expect_byte(s: Seq<u8>, b: u8) -> Option<Seq<u8>> {
    if s.len() > 0 && s[0] == b {
        Some(s.drop_first())
    } else {
        None
    }
}

/// The address grammar: four octets separated by `.`, then `:` and a port,
/// consuming the whole input.
pub open spec fn parse_addr_spec(s: Seq<u8>) -> Option<PeerAddr> {
    match parse_bounded(s, 255) {
        None => None,
        Some((n0, s1)) => match expect_byte(s1, 46) {
            None => None,
            Some(s2) => match parse_bounded(s2, 255) {
                None => None,
                Some((n1, s3)) => match expect_byte(s3, 46) {
                    None => None,
                    Some(s4) => match parse_bounded(s4, 255) {
                        None => None,
                        Some((n2, s5)) => match expect_byte(s5, 46) {
                            None => None,
                            Some(s6) => match parse_bounded(s6, 255) {
                                None => None,
                                Some((n3, s7)) => match expect_byte(s7, 58) {
                                    None => None,
                                    Some(s8) => match parse_bounded(s8, 65535) {
                                        None => None,
                                        Some((p, s9)) => if s9.len() == 0 {
                                            Some(PeerAddr {
                                                o0: n0 as u8,
                                                o1: n1 as u8,
                                                o2: n2 as u8,
                                                o3: n3 as u8,
                                                port: p as u16,
                                            })
                                        } else {
                                            None
                                        },
                                    },
                                },
                            },
                        },
                    },
                },
            },
        },
    }
}

/// `pow10` is positive.
pub proof fn lemma_pow10_pos(n: nat)
    ensures
        pow10(n) >= 1,
    decreases n,
{
    if n > 0 {
        lemma_pow10_pos((n - 1) as nat);
    }
}

/// Shape of a decimal rendering: nonempty, all digits, no leading zero for a
/// nonzero number, and one digit exactly for numbers below ten.
pub proof fn lemma_dec_shape(n: nat)
    ensures
        dec(n).len() >= 1,
        forall|i: int| 0 <= i < dec(n).len() ==> is_digit(#[trigger] dec(n)[i]),
        n >= 1 ==> dec(n)[0] != 48,
        n < 10 ==> dec(n).len() == 1,
    decreases n,
{
    if n >= 10 {
        lemma_dec_shape(n / 10);
        assert forall|i: int| 0 <= i < dec(n).len() implies is_digit(#[trigger] dec(n)[i]) by {
            if i < dec(n / 10).len() {
                assert(dec(n)[i] == dec(n / 10)[i]);
            } else {
                assert(dec(n)[i] == (48 + n % 10) as u8);
            }
        }
        assert(dec(n)[0] == dec(n / 10)[0]);
    }
}

/// Reading the decimal rendering of `n` back gives `n`.
pub proof fn lemma_num_val_dec(n: nat)
    ensures
        num_val(dec(n)) == n,
    decreases n,
{
    if n < 10 {
        assert(dec(n).drop_last() =~= Seq::<u8>::empty());
        assert(num_val(Seq::<u8>::empty()) == 0);
        assert(dec(n).last() == (48 + n) as u8);
        assert((48 + n) as u8 == 48 + n);
    } else {
        lemma_num_val_dec(n / 10);
        assert(dec(n).drop_last() =~= dec(n / 10));
        assert(dec(n).last() == (48 + n % 10) as u8);
        assert((48 + n % 10) as u8 == 48 + n % 10);
        assert(num_val(dec(n)) == num_val(dec(n / 10)) * 10 + (48 + n % 10) - 48);
        assert(num_val(dec(n)) == (n / 10) * 10 + n % 10);
    }
}

/// A digit string of length `l` has value below `pow10(l)`.
pub proof fn lemma_num_val_upper(s: Seq<u8>)
    requires
        forall|i: int| 0 <= i < s.len() ==> is_digit(#[trigger] s[i]),
    ensures
        0 <= num_val(s) < pow10(s.len()),
    decreases s.len(),
{
    if s.len() == 0 {
    } else {
        assert forall|i: int| 0 <= i < s.drop_last().len() implies is_digit(
            #[trigger] s.drop_last()[i],
        ) by {
            assert(s.drop_last()[i] == s[i]);
        }
        lemma_num_val_upper(s.drop_last());
        assert(is_digit(s[s.len() - 1]));
    }
}

/// A digit string with no leading zero has value at least `pow10(l - 1)`.
pub proof fn lemma_num_val_lower(s: Seq<u8>)
    requires
        s.len() >= 1,
        forall|i: int| 0 <= i < s.len() ==> is_digit(#[trigger] s[i]),
        s[0] != 48,
    ensures
        num_val(s) >= pow10((s.len() - 1) as nat),
    decreases s.len(),
{
    if s.len() == 1 {
        assert(s.drop_last() =~= Seq::<u8>::empty());
        assert(num_val(Seq::<u8>::empty()) == 0);
        assert(is_digit(s[0]));
        assert(num_val(s) == s[0] - 48);
        assert(pow10(0) == 1);
    } else {
        assert forall|i: int| 0 <= i < s.drop_last().len() implies is_digit(
            #[trigger] s.drop_last()[i],
        ) by {
            assert(s.drop_last()[i] == s[i]);
        }
        assert(s.drop_last()[0] == s[0]);
        lemma_num_val_lower(s.drop_last());
        assert(is_digit(s[s.len() - 1]));
        assert(num_val(s.drop_last()) >= pow10((s.len() - 2) as nat));
        assert(pow10((s.len() - 1) as nat) == 10 * pow10((s.len() - 2) as nat));
        assert(num_val(s) == num_val(s.drop_last()) * 10 + (s.last() - 48));
        assert(num_val(s.drop_last()) * 10 >= pow10((s.len() - 2) as nat) * 10);
        assert(s.last() - 48 >= 0);
    }
}

/// A canonical digit string (nonempty, no leading zero unless it is `"0"`)
/// is the decimal rendering of its own value.
pub proof fn lemma_dec_of_digits(s: Seq<u8>)
    requires
        s.len() >= 1,
        forall|i: int| 0 <= i < s.len() ==> is_digit(#[trigger] s[i]),
        s.len() > 1 ==> s[0] != 48,
    ensures
        num_val(s) >= 0,
        dec(num_val(s) as nat) == s,
    decreases s.len(),
{
    lemma_num_val_upper(s);
    if s.len() == 1 {
        assert(s.drop_last() =~= Seq::<u8>::empty());
        assert(num_val(Seq::<u8>::empty()) == 0);
        assert(is_digit(s[0]));
        assert(s.last() == s[0]);
        assert(num_val(s) == s[0] - 48);
        assert(dec(num_val(s) as nat) =~= s);
    } else {
        let s2 = s.drop_last();
        assert forall|i: int| 0 <= i < s2.len() implies is_digit(#[trigger] s2[i]) by {
            assert(s2[i] == s[i]);
        }
        lemma_dec_of_digits(s2);
        lemma_num_val_lower(s2);
        lemma_pow10_pos((s2.len() - 1) as nat);
        let n = num_val(s);
        assert(is_digit(s[s.len() - 1]));
        assert(n == num_val(s2) * 10 + (s.last() - 48));
        assert(num_val(s2) >= 1);
        assert(n >= 10);
        assert(n / 10 == num_val(s2) && n % 10 == s.last() - 48) by {
            assert(0 <= s.last() - 48 < 10);
        }
        assert(dec(n as nat) == dec((n / 10) as nat) + seq![(48 + n % 10) as u8]);
        assert(dec((n / 10) as nat) == s2);
        assert((48 + n % 10) as u8 == s.last());
        assert(dec(n as nat) =~= s);
    }
}

/// The digit prefix of `a + b` is all of `a` when `a` is digits and `b`
/// starts with a non-digit.
pub proof fn lemma_digit_prefix_concat(a: Seq<u8>, b: Seq<u8>)
    requires
        forall|i: int| 0 <= i < a.len() ==> is_digit(#[trigger] a[i]),
        b.len() > 0 ==> !is_digit(b[0]),
    ensures
        digit_prefix_len(a + b) == a.len(),
    decreases a.len(),
{
    if a.len() == 0 {
        assert(a + b =~= b);
    } else {
        assert forall|i: int| 0 <= i < a.drop_first().len() implies is_digit(
            #[trigger] a.drop_first()[i],
        ) by {
            assert(a.drop_first()[i] == a[i + 1]);
        }
        lemma_digit_prefix_concat(a.drop_first(), b);
        assert((a + b).drop_first() =~= a.drop_first() + b);
        assert(is_digit((a + b)[0]));
    }
}

/// The digit prefix stops at the first non-digit (or the end).
pub proof fn lemma_digit_prefix_spec(s: Seq<u8>)
    ensures
        digit_prefix_len(s) <= s.len(),
        forall|i: int| 0 <= i < digit_prefix_len(s) ==> is_digit(#[trigger] s[i]),
        digit_prefix_len(s) < s.len() ==> !is_digit(s[digit_prefix_len(s) as int]),
    decreases s.len(),
{
    if s.len() == 0 || !is_digit(s[0]) {
    } else {
        lemma_digit_prefix_spec(s.drop_first());
        let k = digit_prefix_len(s);
        assert forall|i: int| 0 <= i < k implies is_digit(#[trigger] s[i]) by {
            if i > 0 {
                assert(is_digit(s.drop_first()[i - 1]));
            }
        }
        if k < s.len() {
            assert(!is_digit(s.drop_first()[k - 1]));
        }
    }
}

/// Parsing a rendered number followed by a non-digit rest consumes exactly
/// the rendering and yields the number.
pub proof fn lemma_parse_num_of_dec(n: nat, rest: Seq<u8>)
    requires
        rest.len() > 0 ==> !is_digit(rest[0]),
    ensures
        parse_num(dec(n) + rest) == Some((n as int, rest)),
{
    lemma_dec_shape(n);
    lemma_digit_prefix_concat(dec(n), rest);
    let s = dec(n) + rest;
    let k = digit_prefix_len(s);
    assert(k == dec(n).len());
    assert(s.take(k as int) =~= dec(n));
    assert(s.skip(k as int) =~= rest);
    lemma_num_val_dec(n);
    if k > 1 {
        assert(s[0] == dec(n)[0]);
        assert(n >= 1) by {
            if n < 10 {
                assert(dec(n).len() == 1);
            }
        }
        assert(s[0] != 48);
    }
}

/// What a successful number parse consumed is a canonical rendering.
pub proof fn lemma_parse_num_sound(s: Seq<u8>)
    requires
        parse_num(s) is Some,
    ensures
        parse_num(s) matches Some((n, rest)) ==> 0 <= n && s == dec(n as nat) + rest,
{
    let k = digit_prefix_len(s);
    lemma_digit_prefix_spec(s);
    let d = s.take(k as int);
    assert forall|i: int| 0 <= i < d.len() implies is_digit(#[trigger] d[i]) by {
        assert(d[i] == s[i]);
    }
    assert(d.len() > 1 ==> d[0] != 48);
    lemma_dec_of_digits(d);
    assert(s =~= d + s.skip(k as int));
}

/// Round trip: the canonical rendering of an address parses back to it.
#[verifier::rlimit(80)]
pub proof fn lemma_parse_addr_complete(a: PeerAddr)
    ensures
        parse_addr_spec(addr_bytes(a)) == Some(a),
{
    let d0 = dec(a.o0 as nat);
    let d1 = dec(a.o1 as nat);
    let d2 = dec(a.o2 as nat);
    let d3 = dec(a.o3 as nat);
    let dp = dec(a.port as nat);
    let dot = seq![46u8];
    let colon = seq![58u8];
    let s = addr_bytes(a);
    let empty = Seq::<u8>::empty();

    let t0 = dot + d1 + dot + d2 + dot + d3 + colon + dp;
    assert(s =~= d0 + t0);
    assert(t0[0] == 46);
    lemma_parse_num_of_dec(a.o0 as nat, t0);
    assert(parse_bounded(s, 255) == Some((a.o0 as int, t0)));

    let s2 = t0.drop_first();
    assert(expect_byte(t0, 46) == Some(s2));
    let t1 = dot + d2 + dot + d3 + colon + dp;
    assert(s2 =~= d1 + t1);
    assert(t1[0] == 46);
    lemma_parse_num_of_dec(a.o1 as nat, t1);
    assert(parse_bounded(s2, 255) == Some((a.o1 as int, t1)));

    let s4 = t1.drop_first();
    assert(expect_byte(t1, 46) == Some(s4));
    let t2 = dot + d3 + colon + dp;
    assert(s4 =~= d2 + t2);
    assert(t2[0] == 46);
    lemma_parse_num_of_dec(a.o2 as nat, t2);
    assert(parse_bounded(s4, 255) == Some((a.o2 as int, t2)));

    let s6 = t2.drop_first();
    assert(expect_byte(t2, 46) == Some(s6));
    let t3 = colon + dp;
    assert(s6 =~= d3 + t3);
    assert(t3[0] == 58);
    lemma_parse_num_of_dec(a.o3 as nat, t3);
    assert(parse_bounded(s6, 255) == Some((a.o3 as int, t3)));

    let s8 = t3.drop_first();
    assert(expect_byte(t3, 58) == Some(s8));
    assert(s8 =~= dp + empty);
    lemma_parse_num_of_dec(a.port as nat, empty);
    assert(parse_bounded(s8, 65535) == Some((a.port as int, empty)));

    assert(parse_addr_spec(s) == Some(
        PeerAddr {
            o0: (a.o0 as int) as u8,
            o1: (a.o1 as int) as u8,
            o2: (a.o2 as int) as u8,
            o3: (a.o3 as int) as u8,
            port: (a.port as int) as u16,
        },
    ));
}

/// Soundness: whatever the address grammar accepts is the canonical
/// rendering of the returned address.
pub proof fn lemma_parse_addr_sound(s: Seq<u8>, a: PeerAddr)
    requires
        parse_addr_spec(s) == Some(a),
    ensures
        s == addr_bytes(a),
{
    let dot = seq![46u8];
    let colon = seq![58u8];

    let p0 = parse_bounded(s, 255)->Some_0;
    let n0 = p0.0;
    let s1 = p0.1;
    lemma_parse_num_sound(s);
    assert(0 <= n0 <= 255 && s == dec(n0 as nat) + s1);

    let s2 = expect_byte(s1, 46)->Some_0;
    assert(s1 =~= dot + s2);

    let p1 = parse_bounded(s2, 255)->Some_0;
    let n1 = p1.0;
    let s3 = p1.1;
    lemma_parse_num_sound(s2);
    assert(0 <= n1 <= 255 && s2 == dec(n1 as nat) + s3);

    let s4 = expect_byte(s3, 46)->Some_0;
    assert(s3 =~= dot + s4);

    let p2 = parse_bounded(s4, 255)->Some_0;
    let n2 = p2.0;
    let s5 = p2.1;
    lemma_parse_num_sound(s4);
    assert(0 <= n2 <= 255 && s4 == dec(n2 as nat) + s5);

    let s6 = expect_byte(s5, 46)->Some_0;
    assert(s5 =~= dot + s6);

    let p3 = parse_bounded(s6, 255)->Some_0;
    let n3 = p3.0;
    let s7 = p3.1;
    lemma_parse_num_sound(s6);
    assert(0 <= n3 <= 255 && s6 == dec(n3 as nat) + s7);

    let s8 = expect_byte(s7, 58)->Some_0;
    assert(s7 =~= colon + s8);

    let pp = parse_bounded(s8, 65535)->Some_0;
    let p = pp.0;
    let s9 = pp.1;
    lemma_parse_num_sound(s8);
    assert(0 <= p <= 65535 && s8 == dec(p as nat) + s9);
    assert(s9 =~= Seq::<u8>::empty());
    assert(s8 =~= dec(p as nat));

    assert(a.o0 == n0 as u8 && a.o1 == n1 as u8 && a.o2 == n2 as u8 && a.o3 == n3 as u8
        && a.port == p as u16);
    assert(s =~= addr_bytes(a));
}

/// Small powers of ten, spelled out.
pub proof fn lemma_pow10_vals()
    ensures
        pow10(0) == 1,
        pow10(1) == 10,
        pow10(2) == 100,
        pow10(3) == 1000,
        pow10(4) == 10000,
        pow10(5) == 100000,
{
    assert(pow10(0) == 1);
    assert(pow10(1) == 10 * pow10(0));
    assert(pow10(2) == 10 * pow10(1));
    assert(pow10(3) == 10 * pow10(2));
    assert(pow10(4) == 10 * pow10(3));
    assert(pow10(5) == 10 * pow10(4));
}

/// `pow10` grows with its argument.
pub proof fn lemma_pow10_mono(m: nat, n: nat)
    requires
        m <= n,
    ensures
        pow10(m) <= pow10(n),
    decreases n,
{
    if m < n {
        lemma_pow10_mono(m, (n - 1) as nat);
        lemma_pow10_pos((n - 1) as nat);
    }
}

/// The end of the run of digit bytes starting at `i`.
fn digit_run_end(s: &Vec<u8>, i: usize) -> (end: usize)
    requires
        i <= s@.len(),
    ensures
        i <= end <= s@.len(),
        end - i == digit_prefix_len(s@.skip(i as int)),
{
    let mut j: usize = i;
    while j < s.len() && 48 <= s[j] && s[j] <= 57
        invariant
            i <= j <= s@.len(),
            forall|m: int| i <= m < j ==> is_digit(#[trigger] s@[m]),
        decreases s@.len() - j,
    {
        j = j + 1;
    }
    proof {
        let t = s@.skip(i as int);
        lemma_digit_prefix_spec(t);
        let k = digit_prefix_len(t) as int;
        assert(forall|m: int| 0 <= m < t.len() ==> t[m] == s@[i + m]);
        if k < j - i {
            assert(!is_digit(t[k]));
            assert(is_digit(s@[i + k]));
        }
        if k > j - i {
            assert(j < s@.len() ==> !is_digit(s@[j as int]));
            assert(j < s@.len() ==> is_digit(t[j - i]));
            assert(t.len() == s@.len() - i);
        }
    }
    j
}

/// Read a leading decimal number at `i`, as the grammar does: no leading
/// zero, value at most `max`.
fn read_number(s: &Vec<u8>, i: usize, max: u32) -> (r: Option<(u32, usize)>)
    requires
        i <= s@.len(),
        max <= 65535,
    ensures
        match r {
            Some(vj) => {
                &&& i < vj.1 <= s@.len()
                &&& parse_bounded(s@.skip(i as int), max as int) == Some(
                    (vj.0 as int, s@.skip(vj.1 as int)),
                )
            },
            None => parse_bounded(s@.skip(i as int), max as int) is None,
        },
{
    let ghost t = s@.skip(i as int);
    let end = digit_run_end(s, i);
    let ghost k: int = end - i;
    if end == i {
        return None;
    }
    proof {
        lemma_digit_prefix_spec(t);
        assert(forall|m: int| 0 <= m < t.len() ==> t[m] == s@[i + m]);
        assert(t[0] == s@[i as int]);
    }
    if s[i] == 48 && end - i > 1 {
        return None;
    }
    if end - i > 5 {
        proof {
            let d = t.take(k as int);
            assert(forall|m: int| 0 <= m < d.len() ==> d[m] == t[m]);
            assert(d[0] != 48);
            lemma_num_val_lower(d);
            lemma_pow10_mono(5, (k - 1) as nat);
            lemma_pow10_vals();
        }
        return None;
    }
    let mut v: u32 = 0;
    let mut j: usize = i;
    proof {
        lemma_pow10_vals();
        assert(t.take(0) =~= Seq::<u8>::empty());
    }
    while j < end
        invariant
            end == i + k,
            i <= j <= i + k,
            i + k <= s@.len(),
            k <= 5,
            t == s@.skip(i as int),
            k == digit_prefix_len(t),
            forall|m: int| 0 <= m < k ==> is_digit(#[trigger] t[m]),
            v == num_val(t.take(j - i)),
            0 <= v < pow10((j - i) as nat),
            pow10(5) == 100000,
            forall|m: nat| m < 5 ==> 10 * #[trigger] pow10(m) == pow10((m + 1) as nat),
        decreases i + k - j,
    {
        proof {
            assert(t[j - i] == s@[j as int]);
            assert(is_digit(t[j - i]));
            lemma_pow10_mono((j - i + 1) as nat, 5);
            assert(t.take(j - i + 1).drop_last() =~= t.take(j - i));
            assert(t.take(j - i + 1).last() == t[j - i]);
        }
        v = v * 10 + ((s[j] - 48) as u32);
        j = j + 1;
    }
    proof {
        assert(forall|m: int| 0 <= m < t.take(k as int).len() ==> t.take(k as int)[m] == t[m]);
        lemma_num_val_upper(t.take(k as int));
    }
    if v > max {
        return None;
    }
    proof {
        assert(t.skip(k as int) =~= s@.skip(end as int));
    }
    Some((v, end))
}

/// Is the byte at `i` the expected one?
fn expect_at(s: &Vec<u8>, i: usize, b: u8) -> (r: bool)
    requires
        i <= s@.len(),
    ensures
        r == (expect_byte(s@.skip(i as int), b) is Some),
        r ==> i < s@.len() && expect_byte(s@.skip(i as int), b) == Some(
            s@.skip(i as int + 1),
        ),
{
    let r = i < s.len() && s[i] == b;
    proof {
        let t = s@.skip(i as int);
        if i < s@.len() {
            assert(t[0] == s@[i as int]);
            assert(t.drop_first() =~= s@.skip(i as int + 1));
        }
    }
    r
}

/// Run the address grammar over `s`.
fn parse_addr_impl(s: &Vec<u8>) -> (r: Option<PeerAddr>)
    ensures
        r == parse_addr_spec(s@),
{
    let n = s.len();
    proof {
        assert(s@.skip(0) =~= s@);
        assert(n == s@.len());
    }
    let r0 = read_number(s, 0, 255);
    if r0.is_none() {
        return None;
    }
    let (n0, j0) = r0.unwrap();
    if !expect_at(s, j0, 46) {
        return None;
    }
    let r1 = read_number(s, j0 + 1, 255);
    if r1.is_none() {
        return None;
    }
    let (n1, j1) = r1.unwrap();
    if !expect_at(s, j1, 46) {
        return None;
    }
    let r2 = read_number(s, j1 + 1, 255);
    if r2.is_none() {
        return None;
    }
    let (n2, j2) = r2.unwrap();
    if !expect_at(s, j2, 46) {
        return None;
    }
    let r3 = read_number(s, j2 + 1, 255);
    if r3.is_none() {
        return None;
    }
    let (n3, j3) = r3.unwrap();
    if !expect_at(s, j3, 58) {
        return None;
    }
    let rp = read_number(s, j3 + 1, 65535);
    if rp.is_none() {
        return None;
    }
    let (p, jp) = rp.unwrap();
    if jp != s.len() {
        return None;
    }
    proof {
        assert(s@.skip(jp as int).len() == 0);
    }
    Some(
        PeerAddr {
            o0: n0 as u8,
            o1: n1 as u8,
            o2: n2 as u8,
            o3: n3 as u8,
            port: p as u16,
        },
    )
}

/// Parse a `host:port` text into an address. Accepts exactly the canonical
/// renderings: four decimal octets and a decimal port, no leading zeros.
pub fn parse_addr(s: &Vec<u8>) -> (r: Option<PeerAddr>)
    ensures
        r == parse_addr_spec(s@),
        r matches Some(a) ==> s@ == addr_bytes(a),
        r is None ==> forall|a: PeerAddr| s@ != addr_bytes(a),
{
    let r = parse_addr_impl(s);
    proof {
        match r {
            Some(a) => lemma_parse_addr_sound(s@, a),
            None => {
                assert forall|a: PeerAddr| s@ != addr_bytes(a) by {
                    if s@ == addr_bytes(a) {
                        lemma_parse_addr_complete(a);
                    }
                }
            },
        }
    }
    r
}

/// Append the decimal rendering of `n`.
fn push_dec(v: &mut Vec<u8>, n: u16)
    ensures
        final(v)@ == old(v)@ + dec(n as nat),
    decreases n,
{
    if n < 10 {
        v.push(48 + n as u8);
        proof {
            assert(v@ =~= old(v)@ + dec(n as nat));
        }
    } else {
        push_dec(v, n / 10);
        v.push(48 + (n % 10) as u8);
        proof {
            assert(dec(n as nat) == dec((n as nat) / 10) + seq![(48 + (n as nat) % 10) as u8]);
            assert((n / 10) as nat == (n as nat) / 10);
            assert(v@ =~= old(v)@ + dec(n as nat));
        }
    }
}

/// Render an address in its canonical `o0.o1.o2.o3:port` text.
pub fn format_addr(a: &PeerAddr) -> (v: Vec<u8>)
    ensures
        v@ == addr_bytes(*a),
{
    let mut v: Vec<u8> = Vec::new();
    push_dec(&mut v, a.o0 as u16);
    v.push(46);
    push_dec(&mut v, a.o1 as u16);
    v.push(46);
    push_dec(&mut v, a.o2 as u16);
    v.push(46);
    push_dec(&mut v, a.o3 as u16);
    v.push(58);
    push_dec(&mut v, a.port);
    proof {
        assert(v@ =~= addr_bytes(*a));
    }
    v
}

} // verus!
