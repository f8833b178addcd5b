use vstd::prelude::*;

verus! {

/// The character for a single decimal digit.
pub open spec fn digit_char(d: nat) -> char
    recommends
        d < 10,
{
    ((d + 0x30) as u8) as char
}

/// Whether a character is a decimal digit.
pub open spec fn is_digit(c: char) -> bool {
    0x30 <= (c as u32) && (c as u32) <= 0x39
}

/// The value of a decimal digit character.
pub open spec fn digit_val(c: char) -> nat
    recommends
        is_digit(c),
{
    ((c as u32) - 0x30) as nat
}

/// The canonical decimal representation of a natural number: no sign, no
/// leading zeros.
pub open spec fn dec_nat(n: nat) -> Seq<char>
    decreases n,
{
    if n < 10 {
        seq![digit_char(n)]
    } else {
        dec_nat(n / 10).push(digit_char(n % 10))
    }
}

/// The canonical decimal representation of an integer: a minus sign for
/// negative values, then the magnitude.
pub open spec fn dec_int(i: int) -> Seq<char> {
    if i < 0 {
        seq!['-'] + dec_nat((-i) as nat)
    } else {
        dec_nat(i as nat)
    }
}

/// Every character of a canonical natural is a digit, and there is at least
/// one of them.
pub proof fn lemma_dec_nat_digits(n: nat)
    ensures
        dec_nat(n).len() >= 1,
        forall|k: int| 0 <= k < dec_nat(n).len() ==> is_digit(#[trigger] dec_nat(n)[k]),
    decreases n,
{
    if n >= 10 {
        lemma_dec_nat_digits(n / 10);
    }
}

/// A canonical natural starts with '0' only for zero itself.
pub proof fn lemma_dec_nat_leading(n: nat)
    ensures
        n > 0 ==> dec_nat(n)[0] != '0',
    decreases n,
{
    if n >= 10 {
        lemma_dec_nat_leading(n / 10);
        assert(dec_nat(n)[0] == dec_nat(n / 10)[0]);
        if n / 10 == 0 {
            assert(false);
        }
    }
}

/// Canonical decimal representations are injective.
pub proof fn lemma_dec_nat_inj(a: nat, b: nat)
    requires
        dec_nat(a) == dec_nat(b),
    ensures
        a == b,
    decreases a,
{
    lemma_dec_nat_digits(a);
    lemma_dec_nat_digits(b);
    if a < 10 && b < 10 {
        assert(dec_nat(a) == seq![digit_char(a)]);
        assert(dec_nat(b) == seq![digit_char(b)]);
        assert(dec_nat(a)[0] == digit_char(a));
        assert(dec_nat(b)[0] == digit_char(b));
        assert(dec_nat(a)[0] == dec_nat(b)[0]);
        assert(digit_char(a) as u32 == a + 0x30);
        assert(digit_char(b) as u32 == b + 0x30);
        assert(a == b);
    } else if a < 10 {
        assert(dec_nat(a).len() == 1);
        assert(dec_nat(b).len() == dec_nat(b / 10).len() + 1);
        assert(false);
    } else if b < 10 {
        assert(dec_nat(b).len() == 1);
        assert(dec_nat(a).len() == dec_nat(a / 10).len() + 1);
        assert(false);
    } else {
        let la = dec_nat(a).len();
        assert(dec_nat(a).last() == digit_char(a % 10));
        assert(dec_nat(b).last() == digit_char(b % 10));
        assert(digit_char((a % 10) as nat) as u32 == a % 10 + 0x30);
        assert(digit_char((b % 10) as nat) as u32 == b % 10 + 0x30);
        assert(a % 10 == b % 10);
        assert(dec_nat(a).drop_last() =~= dec_nat(a / 10));
        assert(dec_nat(b).drop_last() =~= dec_nat(b / 10));
        lemma_dec_nat_inj(a / 10, b / 10);
        assert(a == 10 * (a / 10) + a % 10);
        assert(b == 10 * (b / 10) + b % 10);
        assert(a == b);
    }
}

/// If one canonical natural is a prefix of another, its value is no larger.
pub proof fn lemma_dec_nat_prefix_le(a: nat, b: nat, t: Seq<char>)
    requires
        dec_nat(a) + t == dec_nat(b),
    ensures
        a <= b,
    decreases b,
{
    if t.len() == 0 {
        assert(dec_nat(a) =~= dec_nat(b));
        lemma_dec_nat_inj(a, b);
    } else {
        lemma_dec_nat_digits(a);
        if b < 10 {
            assert(dec_nat(b).len() == 1);
            assert(false);
        } else {
            assert(dec_nat(b) == dec_nat(b / 10).push(digit_char(b % 10)));
            let la = dec_nat(a).len();
            assert(dec_nat(a).len() + t.len() == dec_nat(b / 10).len() + 1);
            assert(dec_nat(a) + t.drop_last() =~= dec_nat(b / 10)) by {
                assert forall|k: int| 0 <= k < dec_nat(b / 10).len() implies (dec_nat(a)
                    + t.drop_last())[k] == dec_nat(b / 10)[k] by {
                    assert((dec_nat(a) + t)[k] == dec_nat(b)[k]);
                    assert(dec_nat(b)[k] == dec_nat(b / 10)[k]);
                    if k < la {
                        assert((dec_nat(a) + t.drop_last())[k] == dec_nat(a)[k]);
                        assert((dec_nat(a) + t)[k] == dec_nat(a)[k]);
                    } else {
                        assert((dec_nat(a) + t.drop_last())[k] == t.drop_last()[k - la]);
                        assert(t.drop_last()[k - la] == t[k - la]);
                        assert((dec_nat(a) + t)[k] == t[k - la]);
                    }
                }
            }
            lemma_dec_nat_prefix_le(a, b / 10, t.drop_last());
        }
    }
}

/// Formats a natural number in canonical decimal.
pub fn fmt_u64(n: u64) -> (r: Vec<char>)
    ensures
        r@ == dec_nat(n as nat),
    decreases n,
{
    if n < 10 {
        let c: char = (n as u8 + 0x30) as char;
        let r: Vec<char> = vec![c];
        proof {
            assert(r@ =~= dec_nat(n as nat));
        }
        r
    } else {
        let mut r = fmt_u64(n / 10);
        let c: char = ((n % 10) as u8 + 0x30) as char;
        r.push(c);
        proof {
            assert(r@ =~= dec_nat(n as nat));
        }
        r
    }
}

/// Formats a signed integer in canonical decimal.
pub fn fmt_i64(x: i64) -> (r: Vec<char>)
    ensures
        r@ == dec_int(x as int),
{
    if x >= 0 {
        fmt_u64(x as u64)
    } else {
        let mag: u64 = (-(x as i128)) as u64;
        let mut r: Vec<char> = vec!['-'];
        let mut d = fmt_u64(mag);
        r.append(&mut d);
        proof {
            assert(r@ =~= dec_int(x as int));
        }
        r
    }
}

/// A canonical decimal natural occupies `s[i..]` up to the first position
/// that is either the end of `s` or holds a non-digit.
pub open spec fn maximal_nat_at(s: Seq<char>, i: int, n: nat) -> bool {
    let j = i + dec_nat(n).len();
    &&& 0 <= i
    &&& j <= s.len()
    &&& s.subrange(i, j) == dec_nat(n)
    &&& (j == s.len() || !is_digit(s[j]))
}

/// The same, for a signed integer representation.
pub open spec fn maximal_int_at(s: Seq<char>, i: int, x: int) -> bool {
    let j = i + dec_int(x).len();
    &&& 0 <= i
    &&& j <= s.len()
    &&& s.subrange(i, j) == dec_int(x)
    &&& (j == s.len() || !is_digit(s[j]))
}

/// At one position of one sequence there is at most one maximal canonical
/// natural.
pub proof fn lemma_maximal_nat_unique(s: Seq<char>, i: int, a: nat, b: nat)
    requires
        maximal_nat_at(s, i, a),
        maximal_nat_at(s, i, b),
    ensures
        a == b,
{
    lemma_dec_nat_digits(a);
    lemma_dec_nat_digits(b);
    let ja = i + dec_nat(a).len();
    let jb = i + dec_nat(b).len();
    if ja < jb {
        assert(is_digit(s[ja])) by {
            assert(s[ja] == s.subrange(i, jb)[ja - i]);
        }
        assert(false);
    } else if jb < ja {
        assert(is_digit(s[jb])) by {
            assert(s[jb] == s.subrange(i, ja)[jb - i]);
        }
        assert(false);
    } else {
        assert(dec_nat(a) =~= dec_nat(b));
        lemma_dec_nat_inj(a, b);
    }
}

/// A maximal negative representation is a minus sign followed by a maximal
/// natural for the magnitude.
pub proof fn lemma_int_at_neg(s: Seq<char>, i: int, x: int)
    requires
        maximal_int_at(s, i, x),
        x < 0,
    ensures
        s[i] == '-',
        maximal_nat_at(s, i + 1, (-x) as nat),
{
    let m = (-x) as nat;
    let j = i + dec_int(x).len();
    assert(s.subrange(i, j) == dec_int(x));
    assert(dec_int(x) == seq!['-'] + dec_nat(m));
    assert(s[i] == '-') by {
        assert(s.subrange(i, j)[0] == (seq!['-'] + dec_nat(m))[0]);
    }
    assert(s.subrange(i + 1, j) =~= dec_nat(m)) by {
        assert forall|k: int| 0 <= k < j - (i + 1) implies s.subrange(i + 1, j)[k] == dec_nat(m)[k] by {
            assert(s.subrange(i + 1, j)[k] == s[i + 1 + k]);
            assert(s[i + 1 + k] == s.subrange(i, j)[k + 1]);
            assert((seq!['-'] + dec_nat(m))[k + 1] == dec_nat(m)[k]);
        }
    }
}

/// At one position of one sequence there is at most one maximal canonical
/// integer.
pub proof fn lemma_maximal_int_unique(s: Seq<char>, i: int, a: int, b: int)
    requires
        maximal_int_at(s, i, a),
        maximal_int_at(s, i, b),
    ensures
        a == b,
{
    lemma_dec_nat_digits((if a < 0 { -a } else { a }) as nat);
    lemma_dec_nat_digits((if b < 0 { -b } else { b }) as nat);
    if a < 0 && b < 0 {
        lemma_int_at_neg(s, i, a);
        lemma_int_at_neg(s, i, b);
        lemma_maximal_nat_unique(s, i + 1, (-a) as nat, (-b) as nat);
    } else if a < 0 {
        lemma_int_at_neg(s, i, a);
        assert(s[i] == dec_nat(b as nat)[0]) by {
            assert(s.subrange(i, i + dec_int(b).len())[0] == dec_nat(b as nat)[0]);
        }
        assert(is_digit(dec_nat(b as nat)[0]));
        assert(false);
    } else if b < 0 {
        assert(s[i] == '-') by {
            assert(s.subrange(i, i + dec_int(b).len())[0] == '-');
        }
        assert(s[i] == dec_nat(a as nat)[0]) by {
            assert(s.subrange(i, i + dec_int(a).len())[0] == dec_nat(a as nat)[0]);
        }
        assert(is_digit(dec_nat(a as nat)[0]));
        assert(false);
    } else {
        assert(maximal_nat_at(s, i, a as nat));
        assert(maximal_nat_at(s, i, b as nat));
        lemma_maximal_nat_unique(s, i, a as nat, b as nat);
    }
}

/// Parses a canonical decimal natural at `s[i..]`, consuming the longest
/// run of digits. Fails when no digit starts at `i` or the value would not
/// fit in a `u64`.
pub fn parse_u64(s: &Vec<char>, i: usize) -> (r: Option<(u64, usize)>)
    requires
        i <= s@.len(),
    ensures
        match r {
            Option::Some(p) => {
                &&& i <= p.1 <= s@.len()
                &&& maximal_nat_at(s@, i as int, p.0 as nat)
                &&& p.1 == i + dec_nat(p.0 as nat).len()
            },
            Option::None => forall|n: u64| !maximal_nat_at(s@, i as int, n as nat),
        },
{
    if i >= s.len() || !exec_is_digit(s[i]) {
        proof {
            assert forall|n: u64| !maximal_nat_at(s@, i as int, n as nat) by {
                lemma_dec_nat_digits(n as nat);
                if maximal_nat_at(s@, i as int, n as nat) {
                    assert(s@[i as int] == dec_nat(n as nat)[0]);
                    assert(is_digit(s@[i as int]));
                }
            }
        }
        return Option::None;
    }
    let d0 = digit_value(s[i]);
    if d0 == 0 {
        proof {
            assert(s@.subrange(i as int, i + 1) =~= dec_nat(0));
            assert forall|n: u64| n != 0 implies !maximal_nat_at(s@, i as int, n as nat) by {
                if maximal_nat_at(s@, i as int, n as nat) {
                    lemma_dec_nat_leading(n as nat);
                    assert(s@[i as int] == dec_nat(n as nat)[0]);
                    assert(digit_val(s@[i as int]) == 0);
                    lemma_dec_nat_digits(n as nat);
                    assert(dec_nat(n as nat)[0] as u32 == 0x30);
                    if n > 0 {
                        assert(dec_nat(n as nat)[0] != '0');
                        assert('0' as u32 == 0x30);
                    }
                }
            }
            if i + 1 < s@.len() && is_digit(s@[i + 1]) {
                // A digit follows a leading zero: no canonical natural is
                // maximal here, zero included.
                assert(!maximal_nat_at(s@, i as int, 0));
            }
        }
        if i + 1 < s.len() && exec_is_digit(s[i + 1]) {
            return Option::None;
        }
        return Option::Some((0, i + 1));
    }
    let mut acc: u64 = d0;
    let mut j: usize = i + 1;
    proof {
        assert(s@.subrange(i as int, j as int) =~= dec_nat(acc as nat));
    }
    loop
        invariant
            i < j <= s@.len(),
            1 <= acc,
            s@.subrange(i as int, j as int) == dec_nat(acc as nat),
            j == i + dec_nat(acc as nat).len(),
        decreases s@.len() - j,
    {
        if j >= s.len() || !exec_is_digit(s[j]) {
            return Option::Some((acc, j));
        }
        let d = digit_value(s[j]);
        if acc > (0xffff_ffff_ffff_ffffu64 - d) / 10 {
            proof {
                let big = (acc * 10 + d) as nat;
                assert(acc * 10 + d > 0xffff_ffff_ffff_ffffu64) by (nonlinear_arith)
                    requires
                        acc > (0xffff_ffff_ffff_ffffu64 - d) / 10 && d < 10,
                ;
                assert(dec_nat(big) =~= dec_nat(acc as nat).push(digit_char(d as nat))) by {
                    assert(big >= 10);
                    assert(big / 10 == acc as nat && big % 10 == d as nat) by (nonlinear_arith)
                        requires
                            big == acc * 10 + d && d < 10 && acc >= 1,
                    ;
                }
                assert(s@.subrange(i as int, j + 1) =~= dec_nat(big));
                assert forall|n: u64| !maximal_nat_at(s@, i as int, n as nat) by {
                    if maximal_nat_at(s@, i as int, n as nat) {
                        let jn = i + dec_nat(n as nat).len();
                        lemma_dec_nat_digits(n as nat);
                        lemma_dec_nat_digits(acc as nat);
                        lemma_dec_nat_digits(big);
                        if jn <= j {
                            // The digit at `j` would follow the maximal run.
                            assert(is_digit(s@[jn])) by {
                                if jn < j {
                                    assert(s@[jn] == s@.subrange(i as int, j as int)[jn - i]);
                                } else {
                                    assert(s@[jn] == s@.subrange(i as int, j + 1)[jn - i]);
                                }
                            }
                            assert(false);
                        } else {
                            assert(dec_nat(big) + s@.subrange(j + 1, jn) =~= dec_nat(n as nat)) by {
                                assert(s@.subrange(i as int, jn) == dec_nat(n as nat));
                            }
                            lemma_dec_nat_prefix_le(big, n as nat, s@.subrange(j + 1, jn));
                        }
                    }
                }
            }
            return Option::None;
        }
        let ghost old_acc = acc;
        acc = acc * 10 + d;
        j = j + 1;
        proof {
            assert(acc >= 10) by (nonlinear_arith)
                requires
                    acc == old_acc * 10 + d && old_acc >= 1 && d < 10,
            ;
            assert(acc / 10 == old_acc && acc % 10 == d) by (nonlinear_arith)
                requires
                    acc == old_acc * 10 + d && old_acc >= 1 && d < 10,
            ;
            assert(dec_nat(acc as nat) == dec_nat((old_acc) as nat).push(digit_char(d as nat)));
            assert(s@.subrange(i as int, j as int) =~= dec_nat(acc as nat));
        }
    }
}

/// Executable digit test.
pub fn exec_is_digit(c: char) -> (r: bool)
    ensures
        r == is_digit(c),
{
    let n = c as u32;
    0x30 <= n && n <= 0x39
}

/// Executable digit value.
pub fn digit_value(c: char) -> (r: u64)
    requires
        is_digit(c),
    ensures
        r < 10,
        r == digit_val(c),
        digit_char(r as nat) == c,
{
    let n: u32 = c as u32;
    (n - 0x30) as u64
}

/// Parses a canonical decimal integer at `s[i..]`: an optional minus sign
/// for a nonzero magnitude, then the longest run of digits. Fails when the
/// value does not fit in an `i64`.
pub fn parse_i64(s: &Vec<char>, i: usize) -> (r: Option<(i64, usize)>)
    requires
        i <= s@.len(),
    ensures
        match r {
            Option::Some(p) => {
                &&& i <= p.1 <= s@.len()
                &&& maximal_int_at(s@, i as int, p.0 as int)
                &&& p.1 == i + dec_int(p.0 as int).len()
            },
            Option::None => forall|x: i64| !maximal_int_at(s@, i as int, x as int),
        },
{
    if i < s.len() && s[i] == '-' {
        let inner = parse_u64(s, i + 1);
        match inner {
            Option::Some((mag, j)) => {
                if mag == 0 || mag > 0x8000_0000_0000_0000u64 {
                    proof {
                        assert forall|x: i64| !maximal_int_at(s@, i as int, x as int) by {
                            if maximal_int_at(s@, i as int, x as int) {
                                let xi = x as int;
                                if x >= 0 {
                                    lemma_dec_nat_digits(x as nat);
                                    assert(s@[i as int] == dec_nat(x as nat)[0]) by {
                                        assert(s@.subrange(i as int, i + dec_int(xi).len())[0]
                                            == dec_nat(x as nat)[0]);
                                    }
                                    assert(is_digit('-') == false);
                                } else {
                                    lemma_int_at_neg(s@, i as int, xi);
                                    lemma_maximal_nat_unique(
                                        s@,
                                        i + 1,
                                        (-xi) as nat,
                                        mag as nat,
                                    );
                                    assert(1 <= -xi <= 0x8000_0000_0000_0000);
                                }
                            }
                        }
                    }
                    return Option::None;
                }
                let v: i64 = if mag == 0x8000_0000_0000_0000u64 {
                    i64::MIN
                } else {
                    -(mag as i64)
                };
                proof {
                    assert(dec_int(v as int) == seq!['-'] + dec_nat(mag as nat));
                    assert(s@.subrange(i as int, j as int) =~= dec_int(v as int)) by {
                        assert(s@.subrange(i + 1, j as int) == dec_nat(mag as nat));
                        assert(s@.subrange(i as int, j as int)[0] == '-');
                        assert forall|k: int| 1 <= k < j - i implies s@.subrange(
                            i as int,
                            j as int,
                        )[k] == dec_int(v as int)[k] by {
                            assert(s@.subrange(i as int, j as int)[k] == s@.subrange(i + 1, j as int)[
                                k - 1]);
                        }
                    }
                }
                Option::Some((v, j))
            }
            Option::None => {
                proof {
                    assert forall|x: i64| !maximal_int_at(s@, i as int, x as int) by {
                        if maximal_int_at(s@, i as int, x as int) {
                            let xi = x as int;
                            if x >= 0 {
                                lemma_dec_nat_digits(x as nat);
                                assert(s@[i as int] == dec_nat(x as nat)[0]) by {
                                    assert(s@.subrange(i as int, i + dec_int(xi).len())[0]
                                        == dec_nat(x as nat)[0]);
                                }
                                assert(is_digit('-') == false);
                            } else {
                                lemma_int_at_neg(s@, i as int, xi);
                                let mg: u64 = (-xi) as u64;
                                assert(!maximal_nat_at(s@, i + 1, mg as nat));
                            }
                        }
                    }
                }
                Option::None
            }
        }
    } else {
        let inner = parse_u64(s, i);
        match inner {
            Option::Some((mag, j)) => {
                if mag > 0x7fff_ffff_ffff_ffffu64 {
                    proof {
                        assert forall|x: i64| !maximal_int_at(s@, i as int, x as int) by {
                            if maximal_int_at(s@, i as int, x as int) {
                                if x >= 0 {
                                    assert(maximal_nat_at(s@, i as int, x as nat));
                                    lemma_maximal_nat_unique(s@, i as int, x as nat, mag as nat);
                                } else {
                                    assert(s@[i as int] == '-') by {
                                        assert(s@.subrange(
                                            i as int,
                                            i + dec_int(x as int).len(),
                                        )[0] == '-');
                                    }
                                    lemma_dec_nat_digits(mag as nat);
                                    assert(s@[i as int] == dec_nat(mag as nat)[0]) by {
                                        assert(s@.subrange(
                                            i as int,
                                            i + dec_nat(mag as nat).len(),
                                        )[0] == dec_nat(mag as nat)[0]);
                                    }
                                    assert(is_digit('-') == false);
                                }
                            }
                        }
                    }
                    return Option::None;
                }
                Option::Some((mag as i64, j))
            }
            Option::None => {
                proof {
                    assert forall|x: i64| !maximal_int_at(s@, i as int, x as int) by {
                        if maximal_int_at(s@, i as int, x as int) {
                            if x >= 0 {
                                assert(maximal_nat_at(s@, i as int, x as nat));
                            } else {
                                assert(s@[i as int] == '-') by {
                                    assert(s@.subrange(i as int, i + dec_int(x as int).len())[0]
                                        == '-');
                                }
                                assert(i < s@.len());
                            }
                        }
                    }
                }
                Option::None
            }
        }
    }
}


/// The lowercase hexadecimal digit character.
pub open spec fn hex_char(d: nat) -> char
    recommends
        d < 16,
{
    if d < 10 {
        digit_char(d)
    } else {
        ((d + 0x57) as u8) as char
    }
}

/// A character that the record encoding writes as itself: not a control
/// character, not a quote, not a backslash.
pub open spec fn is_raw(c: char) -> bool {
    (c as u32) >= 0x20 && c != '"' && c != '\\'
}

/// Whether a character's code has a two-character escape of its own.
pub open spec fn is_short_escaped(c: char) -> bool {
    c == '"' || c == '\\' || (c as u32) == 8 || (c as u32) == 9 || (c as u32) == 10 || (c as u32)
        == 12 || (c as u32) == 13
}

/// How one character is written inside a quoted record string: itself when
/// raw; a two-character escape for quote, backslash and the common control
/// characters; a lowercase `u00` escape for the remaining control
/// characters.
pub open spec fn esc_char(c: char) -> Seq<char> {
    if c == '"' {
        seq!['\\', '"']
    } else if c == '\\' {
        seq!['\\', '\\']
    } else if (c as u32) == 8 {
        seq!['\\', 'b']
    } else if (c as u32) == 9 {
        seq!['\\', 't']
    } else if (c as u32) == 10 {
        seq!['\\', 'n']
    } else if (c as u32) == 12 {
        seq!['\\', 'f']
    } else if (c as u32) == 13 {
        seq!['\\', 'r']
    } else if (c as u32) < 0x20 {
        seq!['\\', 'u', '0', '0', hex_char((c as u32 / 16) as nat), hex_char(
            (c as u32 % 16) as nat,
        )]
    } else {
        seq![c]
    }
}

/// How a whole string is written inside quotes.
pub open spec fn esc(s: Seq<char>) -> Seq<char>
    decreases s.len(),
{
    if s.len() == 0 {
        Seq::empty()
    } else {
        esc_char(s[0]) + esc(s.drop_first())
    }
}

/// Escaping distributes over concatenation.
pub proof fn lemma_esc_append(a: Seq<char>, b: Seq<char>)
    ensures
        esc(a + b) == esc(a) + esc(b),
    decreases a.len(),
{
    if a.len() == 0 {
        assert(a + b =~= b);
        assert(esc(a) + esc(b) =~= esc(b));
    } else {
        assert((a + b).drop_first() =~= a.drop_first() + b);
        assert((a + b)[0] == a[0]);
        assert(a + b != Seq::<char>::empty() && (a + b).len() != 0) by {
            assert((a + b).len() == a.len() + b.len());
        }
        lemma_esc_append(a.drop_first(), b);
        assert(esc(a + b) =~= esc(a) + esc(b));
    }
}

/// Escaping a single character is that character's escape.
pub proof fn lemma_esc_one(c: char)
    ensures
        esc(seq![c]) == esc_char(c),
{
    assert(seq![c].len() == 1);
    assert(seq![c][0] == c);
    assert(seq![c].drop_first() =~= Seq::<char>::empty());
    assert(esc(seq![c]) == esc_char(c) + esc(Seq::<char>::empty()));
    assert(esc_char(c) + Seq::<char>::empty() =~= esc_char(c));
}

/// `t` occurs in `s` starting at position `i`.
pub open spec fn prefix_at(s: Seq<char>, i: int, t: Seq<char>) -> bool {
    &&& 0 <= i
    &&& i + t.len() <= s.len()
    &&& s.subrange(i, i + t.len()) == t
}

/// A prefix made of two parts splits into a prefix of each part.
pub proof fn lemma_prefix_split(s: Seq<char>, i: int, a: Seq<char>, b: Seq<char>)
    requires
        prefix_at(s, i, a + b),
    ensures
        prefix_at(s, i, a),
        prefix_at(s, i + a.len(), b),
{
    assert(s.subrange(i, i + a.len()) =~= a) by {
        assert forall|k: int| 0 <= k < a.len() implies s.subrange(i, i + a.len())[k] == a[k] by {
            assert(s[i + k] == s.subrange(i, i + (a + b).len())[k]);
            assert((a + b)[k] == a[k]);
        }
    }
    assert(s.subrange(i + a.len(), i + a.len() + b.len()) =~= b) by {
        assert forall|k: int| 0 <= k < b.len() implies s.subrange(
            i + a.len(),
            i + a.len() + b.len(),
        )[k] == b[k] by {
            assert(s[i + a.len() + k] == s.subrange(i, i + (a + b).len())[a.len() + k]);
            assert((a + b)[a.len() + k] == b[k]);
        }
    }
}

/// Adjacent prefixes join into a prefix of the concatenation.
pub proof fn lemma_prefix_join(s: Seq<char>, i: int, a: Seq<char>, b: Seq<char>)
    requires
        prefix_at(s, i, a),
        prefix_at(s, i + a.len(), b),
    ensures
        prefix_at(s, i, a + b),
{
    assert(s.subrange(i, i + (a + b).len()) =~= a + b) by {
        assert forall|k: int| 0 <= k < (a + b).len() implies s.subrange(i, i + (a + b).len())[k]
            == (a + b)[k] by {
            if k < a.len() {
                assert(s[i + k] == s.subrange(i, i + a.len())[k]);
            } else {
                assert(s[i + k] == s.subrange(i + a.len(), i + a.len() + b.len())[k - a.len()]);
            }
        }
    }
}

/// The shape of a character's escape, by cases on its first two characters.
pub proof fn lemma_esc_char_shape(c: char)
    ensures
        is_raw(c) ==> esc_char(c) == seq![c],
        !is_raw(c) ==> esc_char(c).len() >= 2 && esc_char(c)[0] == '\\',
        !is_raw(c) && esc_char(c)[1] == '"' ==> c == '"' && esc_char(c) == seq!['\\', '"'],
        !is_raw(c) && esc_char(c)[1] == '\\' ==> c == '\\' && esc_char(c) == seq!['\\', '\\'],
        !is_raw(c) && esc_char(c)[1] == 'b' ==> (c as u32) == 8 && esc_char(c) == seq!['\\', 'b'],
        !is_raw(c) && esc_char(c)[1] == 't' ==> (c as u32) == 9 && esc_char(c) == seq!['\\', 't'],
        !is_raw(c) && esc_char(c)[1] == 'n' ==> (c as u32) == 10 && esc_char(c) == seq!['\\', 'n'],
        !is_raw(c) && esc_char(c)[1] == 'f' ==> (c as u32) == 12 && esc_char(c) == seq!['\\', 'f'],
        !is_raw(c) && esc_char(c)[1] == 'r' ==> (c as u32) == 13 && esc_char(c) == seq!['\\', 'r'],
        !is_raw(c) && esc_char(c)[1] == 'u' ==> (c as u32) < 0x20 && !is_short_escaped(c)
            && esc_char(c) == (seq!['\\', 'u', '0', '0', hex_char((c as u32 / 16) as nat), hex_char(
            (c as u32 % 16) as nat,
        )]),
        !is_raw(c) ==> (esc_char(c)[1] == '"' || esc_char(c)[1] == '\\' || esc_char(c)[1] == 'b'
            || esc_char(c)[1] == 't' || esc_char(c)[1] == 'n' || esc_char(c)[1] == 'f' || esc_char(
            c,
        )[1] == 'r' || esc_char(c)[1] == 'u'),
{
}

/// Lowercase hexadecimal digits are injective.
pub proof fn lemma_hex_inj(a: nat, b: nat)
    requires
        a < 16,
        b < 16,
        hex_char(a) == hex_char(b),
    ensures
        a == b,
{
    if a < 10 {
        assert(hex_char(a) as u32 == a + 0x30);
    } else {
        assert(hex_char(a) as u32 == a + 0x57);
    }
    if b < 10 {
        assert(hex_char(b) as u32 == b + 0x30);
    } else {
        assert(hex_char(b) as u32 == b + 0x57);
    }
}

/// Executable lowercase hexadecimal digit.
pub fn hex_digit(d: u32) -> (r: char)
    requires
        d < 16,
    ensures
        r == hex_char(d as nat),
{
    if d < 10 {
        (d as u8 + 0x30) as char
    } else {
        (d as u8 + 0x57) as char
    }
}

/// Executable inverse of `hex_char`.
pub fn hex_value(c: char) -> (r: Option<u32>)
    ensures
        match r {
            Option::Some(v) => v < 16 && hex_char(v as nat) == c,
            Option::None => forall|d: nat| d < 16 ==> hex_char(d) != c,
        },
{
    let n: u32 = c as u32;
    if 0x30 <= n && n <= 0x39 {
        Option::Some(n - 0x30)
    } else if 0x61 <= n && n <= 0x66 {
        Option::Some(n - 0x57)
    } else {
        proof {
            assert forall|d: nat| d < 16 implies hex_char(d) != c by {
                if d < 10 {
                    assert(hex_char(d) as u32 == d + 0x30);
                } else {
                    assert(hex_char(d) as u32 == d + 0x57);
                }
            }
        }
        Option::None
    }
}

/// Appends one character's escape.
pub fn push_escaped_char(out: &mut Vec<char>, c: char)
    ensures
        final(out)@ == old(out)@ + esc_char(c),
{
    let n: u32 = c as u32;
    if c == '"' {
        out.push('\\');
        out.push('"');
    } else if c == '\\' {
        out.push('\\');
        out.push('\\');
    } else if n == 8 {
        out.push('\\');
        out.push('b');
    } else if n == 9 {
        out.push('\\');
        out.push('t');
    } else if n == 10 {
        out.push('\\');
        out.push('n');
    } else if n == 12 {
        out.push('\\');
        out.push('f');
    } else if n == 13 {
        out.push('\\');
        out.push('r');
    } else if n < 0x20 {
        out.push('\\');
        out.push('u');
        out.push('0');
        out.push('0');
        out.push(hex_digit(n / 16));
        out.push(hex_digit(n % 16));
    } else {
        out.push(c);
    }
    proof {
        assert(out@ =~= old(out)@ + esc_char(c));
    }
}

/// Appends a whole string's escaped form.
pub fn push_escaped(out: &mut Vec<char>, s: &Vec<char>)
    ensures
        final(out)@ == old(out)@ + esc(s@),
{
    let ghost orig = out@;
    let mut k: usize = 0;
    while k < s.len()
        invariant
            k <= s@.len(),
            out@ == orig + esc(s@.take(k as int)),
        decreases s@.len() - k,
    {
        push_escaped_char(out, s[k]);
        proof {
            assert(s@.take(k + 1) =~= s@.take(k as int) + seq![s@[k as int]]);
            lemma_esc_append(s@.take(k as int), seq![s@[k as int]]);
            lemma_esc_one(s@[k as int]);
        }
        k = k + 1;
    }
    proof {
        assert(s@.take(s@.len() as int) =~= s@);
    }
}


/// A subrange splits at any interior point.
pub proof fn lemma_subrange_join(s: Seq<char>, i: int, k: int, j: int)
    requires
        0 <= i <= k <= j <= s.len(),
    ensures
        s.subrange(i, j) == s.subrange(i, k) + s.subrange(k, j),
{
    assert(s.subrange(i, j) =~= s.subrange(i, k) + s.subrange(k, j));
}

/// Reads one character from a prefix.
pub proof fn lemma_prefix_index(s: Seq<char>, i: int, t: Seq<char>, k: int)
    requires
        prefix_at(s, i, t),
        0 <= k < t.len(),
    ensures
        s[i + k] == t[k],
{
    assert(s.subrange(i, i + t.len())[k] == t[k]);
}

/// Two escapes that start at the same position denote the same character.
pub proof fn lemma_esc_char_det(s: Seq<char>, i: int, a: char, b: char)
    requires
        prefix_at(s, i, esc_char(a)),
        prefix_at(s, i, esc_char(b)),
        !is_raw(a),
        !is_raw(b),
    ensures
        a == b,
{
    lemma_esc_char_shape(a);
    lemma_esc_char_shape(b);
    lemma_prefix_index(s, i, esc_char(a), 1);
    lemma_prefix_index(s, i, esc_char(b), 1);
    let e = esc_char(a)[1];
    assert(esc_char(b)[1] == e);
    if e == '"' || e == '\\' || e == 'b' || e == 't' || e == 'n' || e == 'f' || e == 'r' {
        assert(a as u32 == b as u32);
    } else {
        assert(e == 'u');
        let ac = a as u32;
        let bc = b as u32;
        lemma_prefix_index(s, i, esc_char(a), 4);
        lemma_prefix_index(s, i, esc_char(b), 4);
        lemma_prefix_index(s, i, esc_char(a), 5);
        lemma_prefix_index(s, i, esc_char(b), 5);
        assert(hex_char((ac / 16) as nat) == hex_char((bc / 16) as nat));
        assert(hex_char((ac % 16) as nat) == hex_char((bc % 16) as nat));
        lemma_hex_inj((ac / 16) as nat, (bc / 16) as nat);
        lemma_hex_inj((ac % 16) as nat, (bc % 16) as nat);
        assert(ac == bc);
    }
}

/// At one position there is at most one escaped string closed by a quote.
pub proof fn lemma_esc_quote_unique(s: Seq<char>, i: int, a: Seq<char>, b: Seq<char>)
    requires
        prefix_at(s, i, esc(a) + seq!['"']),
        prefix_at(s, i, esc(b) + seq!['"']),
    ensures
        a == b,
    decreases a.len(),
{
    if a.len() == 0 {
        assert(esc(a) + seq!['"'] =~= seq!['"']);
        lemma_prefix_index(s, i, seq!['"'], 0);
        if b.len() > 0 {
            let b0 = b[0];
            lemma_esc_char_shape(b0);
            assert(esc(b) + seq!['"'] =~= esc_char(b0) + (esc(b.drop_first()) + seq!['"']));
            lemma_prefix_split(s, i, esc_char(b0), esc(b.drop_first()) + seq!['"']);
            lemma_prefix_index(s, i, esc_char(b0), 0);
            if is_raw(b0) {
                assert(b0 == '"');
                assert(false);
            } else {
                assert(s[i] == '\\');
                assert(false);
            }
        }
    } else {
        let a0 = a[0];
        lemma_esc_char_shape(a0);
        assert(esc(a) + seq!['"'] =~= esc_char(a0) + (esc(a.drop_first()) + seq!['"']));
        lemma_prefix_split(s, i, esc_char(a0), esc(a.drop_first()) + seq!['"']);
        lemma_prefix_index(s, i, esc_char(a0), 0);
        if b.len() == 0 {
            assert(esc(b) + seq!['"'] =~= seq!['"']);
            lemma_prefix_index(s, i, seq!['"'], 0);
            if is_raw(a0) {
                assert(a0 == '"');
                assert(false);
            } else {
                assert(s[i] == '\\');
                assert(false);
            }
        } else {
            let b0 = b[0];
            lemma_esc_char_shape(b0);
            assert(esc(b) + seq!['"'] =~= esc_char(b0) + (esc(b.drop_first()) + seq!['"']));
            lemma_prefix_split(s, i, esc_char(b0), esc(b.drop_first()) + seq!['"']);
            lemma_prefix_index(s, i, esc_char(b0), 0);
            if is_raw(a0) && is_raw(b0) {
                assert(a0 == s[i] && b0 == s[i]);
            } else if is_raw(a0) {
                assert(a0 == s[i] && s[i] == '\\');
                assert(false);
            } else if is_raw(b0) {
                assert(b0 == s[i] && s[i] == '\\');
                assert(false);
            } else {
                lemma_esc_char_det(s, i, a0, b0);
            }
            assert(a0 == b0);
            lemma_esc_quote_unique(
                s,
                i + esc_char(a0).len(),
                a.drop_first(),
                b.drop_first(),
            );
            assert(a.len() == b.len());
            assert forall|k: int| 0 <= k < a.len() implies a[k] == b[k] by {
                if k > 0 {
                    assert(a[k] == a.drop_first()[k - 1]);
                    assert(b[k] == b.drop_first()[k - 1]);
                }
            }
            assert(a =~= b);
        }
    }
}

/// Reads one escape sequence starting at the backslash in `s[i]`. Accepts
/// exactly the escapes the encoder writes.
pub fn read_escape(s: &Vec<char>, i: usize) -> (r: Option<(char, usize)>)
    requires
        i < s@.len(),
        s@[i as int] == '\\',
    ensures
        match r {
            Option::Some(p) => {
                &&& !is_raw(p.0)
                &&& i + esc_char(p.0).len() == p.1
                &&& p.1 <= s@.len()
                &&& s@.subrange(i as int, p.1 as int) == esc_char(p.0)
            },
            Option::None => forall|c: char| !is_raw(c) ==> !prefix_at(s@, i as int, esc_char(c)),
        },
{
    let ghost ii = i as int;
    if s.len() - i < 2 {
        proof {
            assert forall|c: char| !is_raw(c) implies !prefix_at(s@, ii, esc_char(c)) by {
                lemma_esc_char_shape(c);
            }
        }
        return Option::None;
    }
    let e = s[i + 1];
    if e == '"' {
        proof {
            assert(s@.subrange(ii, ii + 2) =~= esc_char('"'));
        }
        return Option::Some(('"', i + 2));
    }
    if e == '\\' {
        proof {
            assert(s@.subrange(ii, ii + 2) =~= esc_char('\\'));
        }
        return Option::Some(('\\', i + 2));
    }
    if e == 'b' {
        proof {
            assert(s@.subrange(ii, ii + 2) =~= esc_char((8u8) as char));
        }
        return Option::Some((8u8 as char, i + 2));
    }
    if e == 't' {
        proof {
            assert(s@.subrange(ii, ii + 2) =~= esc_char((9u8) as char));
        }
        return Option::Some((9u8 as char, i + 2));
    }
    if e == 'n' {
        proof {
            assert(s@.subrange(ii, ii + 2) =~= esc_char((10u8) as char));
        }
        return Option::Some((10u8 as char, i + 2));
    }
    if e == 'f' {
        proof {
            assert(s@.subrange(ii, ii + 2) =~= esc_char((12u8) as char));
        }
        return Option::Some((12u8 as char, i + 2));
    }
    if e == 'r' {
        proof {
            assert(s@.subrange(ii, ii + 2) =~= esc_char((13u8) as char));
        }
        return Option::Some((13u8 as char, i + 2));
    }
    if e == 'u' {
        if s.len() - i < 6 {
            proof {
                assert forall|c: char| !is_raw(c) implies !prefix_at(s@, ii, esc_char(c)) by {
                    lemma_esc_char_shape(c);
                    if prefix_at(s@, ii, esc_char(c)) {
                        lemma_prefix_index(s@, ii, esc_char(c), 1);
                        assert(esc_char(c)[1] == 'u');
                        assert(esc_char(c).len() == 6);
                    }
                }
            }
            return Option::None;
        }
        let z2 = s[i + 2];
        let z3 = s[i + 3];
        let h1o = hex_value(s[i + 4]);
        let h0o = hex_value(s[i + 5]);
        let mut ok: bool = z2 == '0' && z3 == '0';
        let mut n: u32 = 0;
        match (h1o, h0o) {
            (Option::Some(h1), Option::Some(h0)) => {
                n = h1 * 16 + h0;
                if n >= 0x20 || n == 8 || n == 9 || n == 10 || n == 12 || n == 13 {
                    ok = false;
                }
            }
            _ => {
                ok = false;
            }
        }
        if !ok {
            proof {
                assert forall|c: char| !is_raw(c) implies !prefix_at(s@, ii, esc_char(c)) by {
                    lemma_esc_char_shape(c);
                    if prefix_at(s@, ii, esc_char(c)) {
                        lemma_prefix_index(s@, ii, esc_char(c), 1);
                        assert(esc_char(c)[1] == 'u');
                        let cc = c as u32;
                        lemma_prefix_index(s@, ii, esc_char(c), 2);
                        lemma_prefix_index(s@, ii, esc_char(c), 3);
                        lemma_prefix_index(s@, ii, esc_char(c), 4);
                        lemma_prefix_index(s@, ii, esc_char(c), 5);
                        assert(s@[ii + 4] == hex_char((cc / 16) as nat));
                        assert(s@[ii + 5] == hex_char((cc % 16) as nat));
                        match (h1o, h0o) {
                            (Option::Some(h1), Option::Some(h0)) => {
                                lemma_hex_inj((cc / 16) as nat, h1 as nat);
                                lemma_hex_inj((cc % 16) as nat, h0 as nat);
                                assert(cc == h1 * 16 + h0);
                                assert(!is_short_escaped(c));
                                assert(false);
                            }
                            (Option::None, _) => {
                                assert(hex_char((cc / 16) as nat) != s@[ii + 4]);
                                assert(false);
                            }
                            (_, Option::None) => {
                                assert(hex_char((cc % 16) as nat) != s@[ii + 5]);
                                assert(false);
                            }
                        }
                    }
                }
            }
            return Option::None;
        }
        let dc: char = (n as u8) as char;
        proof {
            assert(dc as u32 == n);
            assert(n / 16 < 16 && n % 16 < 16);
            assert(esc_char(dc) =~= seq!['\\', 'u', '0', '0', hex_char((n / 16) as nat), hex_char(
                (n % 16) as nat,
            )]);
            assert(s@.subrange(ii, ii + 6) =~= esc_char(dc)) by {
                assert(s@[ii + 4] == hex_char((n / 16) as nat)) by {
                    match (h1o, h0o) {
                        (Option::Some(h1), Option::Some(h0)) => {
                            assert(n == h1 * 16 + h0 && h0 < 16 && h1 < 16);
                            assert(n / 16 == h1 && n % 16 == h0);
                        }
                        _ => {
                            assert(false);
                        }
                    }
                }
                assert(s@[ii + 5] == hex_char((n % 16) as nat)) by {
                    match (h1o, h0o) {
                        (Option::Some(h1), Option::Some(h0)) => {
                            assert(n == h1 * 16 + h0 && h0 < 16 && h1 < 16);
                            assert(n / 16 == h1 && n % 16 == h0);
                        }
                        _ => {
                            assert(false);
                        }
                    }
                }
            }
        }
        return Option::Some((dc, i + 6));
    }
    proof {
        assert forall|c: char| !is_raw(c) implies !prefix_at(s@, ii, esc_char(c)) by {
            lemma_esc_char_shape(c);
            if prefix_at(s@, ii, esc_char(c)) {
                lemma_prefix_index(s@, ii, esc_char(c), 1);
            }
        }
    }
    Option::None
}

/// Scans the escaped body of a quoted string up to and including its
/// closing quote, starting just after the opening quote. Accepts exactly
/// what the encoder writes.
pub fn scan_string(s: &Vec<char>, i: usize) -> (r: Option<(Vec<char>, usize)>)
    requires
        i <= s@.len(),
    ensures
        match r {
            Option::Some(p) => {
                &&& i <= p.1 <= s@.len()
                &&& s@.subrange(i as int, p.1 as int) == esc(p.0@) + seq!['"']
            },
            Option::None => forall|v: Seq<char>| !prefix_at(s@, i as int, esc(v) + seq!['"']),
        },
    decreases s@.len() - i,
{
    let ghost ii = i as int;
    if i >= s.len() {
        proof {
            assert forall|v: Seq<char>| !prefix_at(s@, ii, esc(v) + seq!['"']) by {
                assert((esc(v) + seq!['"']).len() >= 1);
            }
        }
        return Option::None;
    }
    let c = s[i];
    if c == '"' {
        let out: Vec<char> = Vec::new();
        proof {
            assert(esc(out@) + seq!['"'] =~= seq!['"']);
            assert(s@.subrange(ii, ii + 1) =~= seq!['"']);
        }
        return Option::Some((out, i + 1));
    }
    if c == '\\' {
        match read_escape(s, i) {
            Option::None => {
                proof {
                    assert forall|v: Seq<char>| !prefix_at(s@, ii, esc(v) + seq!['"']) by {
                        if prefix_at(s@, ii, esc(v) + seq!['"']) {
                            if v.len() == 0 {
                                assert(esc(v) + seq!['"'] =~= seq!['"']);
                                lemma_prefix_index(s@, ii, seq!['"'], 0);
                                assert(false);
                            } else {
                                let v0 = v[0];
                                lemma_esc_char_shape(v0);
                                assert(esc(v) + seq!['"'] =~= esc_char(v0) + (esc(v.drop_first())
                                    + seq!['"']));
                                lemma_prefix_split(
                                    s@,
                                    ii,
                                    esc_char(v0),
                                    esc(v.drop_first()) + seq!['"'],
                                );
                                lemma_prefix_index(s@, ii, esc_char(v0), 0);
                                if is_raw(v0) {
                                    assert(v0 == '\\');
                                    assert(false);
                                } else {
                                    assert(!prefix_at(s@, ii, esc_char(v0)));
                                    assert(false);
                                }
                            }
                        }
                    }
                }
                Option::None
            }
            Option::Some((dc, k)) => {
                match scan_string(s, k) {
                    Option::None => {
                        proof {
                            assert forall|v: Seq<char>| !prefix_at(s@, ii, esc(v) + seq!['"']) by {
                                if prefix_at(s@, ii, esc(v) + seq!['"']) {
                                    if v.len() == 0 {
                                        assert(esc(v) + seq!['"'] =~= seq!['"']);
                                        lemma_prefix_index(s@, ii, seq!['"'], 0);
                                        assert(false);
                                    } else {
                                        let v0 = v[0];
                                        lemma_esc_char_shape(v0);
                                        assert(esc(v) + seq!['"'] =~= esc_char(v0) + (esc(
                                            v.drop_first(),
                                        ) + seq!['"']));
                                        lemma_prefix_split(
                                            s@,
                                            ii,
                                            esc_char(v0),
                                            esc(v.drop_first()) + seq!['"'],
                                        );
                                        lemma_prefix_index(s@, ii, esc_char(v0), 0);
                                        if is_raw(v0) {
                                            assert(v0 == '\\');
                                            assert(false);
                                        } else {
                                            assert(prefix_at(s@, ii, s@.subrange(ii, k as int)));
                                            lemma_esc_char_det(s@, ii, v0, dc);
                                            assert(!prefix_at(
                                                s@,
                                                k as int,
                                                esc(v.drop_first()) + seq!['"'],
                                            ));
                                            assert(false);
                                        }
                                    }
                                }
                            }
                        }
                        Option::None
                    }
                    Option::Some((mut tail, j)) => {
                        let mut out: Vec<char> = vec![dc];
                        let ghost tailv = tail@;
                        out.append(&mut tail);
                        proof {
                            assert(out@ =~= seq![dc] + tailv);
                            assert(out@[0] == dc);
                            assert(out@.drop_first() =~= tailv);
                            assert(esc(out@) == esc_char(dc) + esc(tailv));
                            lemma_subrange_join(s@, ii, k as int, j as int);
                            assert(s@.subrange(ii, j as int) =~= esc(out@) + seq!['"']);
                        }
                        Option::Some((out, j))
                    }
                }
            }
        }
    } else {
        let n: u32 = c as u32;
        if n < 0x20 {
            proof {
                assert forall|v: Seq<char>| !prefix_at(s@, ii, esc(v) + seq!['"']) by {
                    if prefix_at(s@, ii, esc(v) + seq!['"']) {
                        if v.len() == 0 {
                            assert(esc(v) + seq!['"'] =~= seq!['"']);
                            lemma_prefix_index(s@, ii, seq!['"'], 0);
                            assert('"' as u32 == 0x22);
                            assert(false);
                        } else {
                            let v0 = v[0];
                            lemma_esc_char_shape(v0);
                            assert(esc(v) + seq!['"'] =~= esc_char(v0) + (esc(v.drop_first())
                                + seq!['"']));
                            lemma_prefix_split(
                                s@,
                                ii,
                                esc_char(v0),
                                esc(v.drop_first()) + seq!['"'],
                            );
                            lemma_prefix_index(s@, ii, esc_char(v0), 0);
                            if is_raw(v0) {
                                assert(v0 == s@[ii]);
                                assert(false);
                            } else {
                                assert(s@[ii] == '\\');
                                assert('\\' as u32 == 0x5c);
                                assert(false);
                            }
                        }
                    }
                }
            }
            return Option::None;
        }
        match scan_string(s, i + 1) {
            Option::None => {
                proof {
                    assert forall|v: Seq<char>| !prefix_at(s@, ii, esc(v) + seq!['"']) by {
                        if prefix_at(s@, ii, esc(v) + seq!['"']) {
                            if v.len() == 0 {
                                assert(esc(v) + seq!['"'] =~= seq!['"']);
                                lemma_prefix_index(s@, ii, seq!['"'], 0);
                                assert(false);
                            } else {
                                let v0 = v[0];
                                lemma_esc_char_shape(v0);
                                assert(esc(v) + seq!['"'] =~= esc_char(v0) + (esc(v.drop_first())
                                    + seq!['"']));
                                lemma_prefix_split(
                                    s@,
                                    ii,
                                    esc_char(v0),
                                    esc(v.drop_first()) + seq!['"'],
                                );
                                lemma_prefix_index(s@, ii, esc_char(v0), 0);
                                if is_raw(v0) {
                                    assert(v0 == s@[ii]);
                                    assert(esc_char(v0).len() == 1);
                                    assert(!prefix_at(
                                        s@,
                                        ii + 1,
                                        esc(v.drop_first()) + seq!['"'],
                                    ));
                                    assert(false);
                                } else {
                                    assert(s@[ii] == '\\');
                                    assert(false);
                                }
                            }
                        }
                    }
                }
                Option::None
            }
            Option::Some((mut tail, j)) => {
                let mut out: Vec<char> = vec![c];
                let ghost tailv = tail@;
                out.append(&mut tail);
                proof {
                    assert(is_raw(c));
                    lemma_esc_char_shape(c);
                    assert(out@ =~= seq![c] + tailv);
                    assert(out@[0] == c);
                    assert(out@.drop_first() =~= tailv);
                    assert(esc(out@) == esc_char(c) + esc(tailv));
                    assert(s@.subrange(ii, ii + 1) =~= seq![c]);
                    lemma_subrange_join(s@, ii, ii + 1, j as int);
                    assert(s@.subrange(ii, j as int) =~= esc(out@) + seq!['"']);
                }
                Option::Some((out, j))
            }
        }
    }
}

} // verus!
