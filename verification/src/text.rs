//! Decimal rendering of numbers and joining of text, the building blocks of every generated
//! configuration line.

use vstd::prelude::*;

verus! {

/// The character of a decimal digit.
pub open spec fn digit_char(d: nat) -> char {
    if d == 0 { '0' }
    else if d == 1 { '1' }
    else if d == 2 { '2' }
    else if d == 3 { '3' }
    else if d == 4 { '4' }
    else if d == 5 { '5' }
    else if d == 6 { '6' }
    else if d == 7 { '7' }
    else if d == 8 { '8' }
    else { '9' }
}

/// The decimal representation of a natural number, without leading zeros.
pub open spec fn nat_str(n: nat) -> Seq<char>
    decreases n,
{
    if n < 10 {
        seq![digit_char(n)]
    } else {
        nat_str(n / 10).push(digit_char(n % 10))
    }
}

/// Join a sequence of strings with a separator.
pub open spec fn join(parts: Seq<Seq<char>>, sep: Seq<char>) -> Seq<char>
    decreases parts.len(),
{
    if parts.len() == 0 {
        Seq::empty()
    } else if parts.len() == 1 {
        parts[0]
    } else {
        join(parts.drop_last(), sep) + sep + parts.last()
    }
}

/// Concatenate a sequence of strings.
pub open spec fn concat(parts: Seq<Seq<char>>) -> Seq<char>
    decreases parts.len(),
{
    if parts.len() == 0 {
        Seq::empty()
    } else {
        concat(parts.drop_last()) + parts.last()
    }
}

/// The dotted-quad representation of an IPv4 address given as a 32-bit number.
pub open spec fn ipv4_str(addr: u32) -> Seq<char> {
    nat_str((addr / 0x100_0000) as nat) + "."@
        + nat_str(((addr / 0x1_0000) % 256) as nat) + "."@
        + nat_str(((addr / 0x100) % 256) as nat) + "."@
        + nat_str((addr % 256) as nat)
}

/// The representation of an IPv4 network: `address/length`.
pub open spec fn ipv4_net_str(addr: u32, len: u8) -> Seq<char> {
    ipv4_str(addr) + "/"@ + nat_str(len as nat)
}

/// The text of a single decimal digit.
fn digit_text(d: u64) -> (s: &'static str)
    requires
        d < 10,
    ensures
        s@ == seq![digit_char(d as nat)],
{
    proof {
        reveal_strlit("0");
        reveal_strlit("1");
        reveal_strlit("2");
        reveal_strlit("3");
        reveal_strlit("4");
        reveal_strlit("5");
        reveal_strlit("6");
        reveal_strlit("7");
        reveal_strlit("8");
        reveal_strlit("9");
    }
    if d == 0 { "0" }
    else if d == 1 { "1" }
    else if d == 2 { "2" }
    else if d == 3 { "3" }
    else if d == 4 { "4" }
    else if d == 5 { "5" }
    else if d == 6 { "6" }
    else if d == 7 { "7" }
    else if d == 8 { "8" }
    else { "9" }
}

/// Append the decimal representation of `n` to `s`.
pub fn push_u64(s: &mut String, n: u64)
    ensures
        final(s)@ == old(s)@ + nat_str(n as nat),
    decreases n,
{
    if n < 10 {
        s.append(digit_text(n));
        assert(nat_str(n as nat) == seq![digit_char(n as nat)]);
    } else {
        push_u64(s, n / 10);
        s.append(digit_text(n % 10));
        assert(old(s)@ + nat_str((n / 10) as nat) + seq![digit_char((n % 10) as nat)]
            =~= old(s)@ + nat_str(n as nat));
    }
}

/// The last `n` decimal digits of `f`, with leading zeros.
pub open spec fn padded_str(f: nat, n: nat) -> Seq<char>
    decreases n,
{
    if n == 0 {
        Seq::empty()
    } else {
        padded_str(f / 10, (n - 1) as nat).push(digit_char(f % 10))
    }
}

/// The last `n` decimal digits of `f` without the trailing zeros.
pub open spec fn frac_str(f: nat, n: nat) -> Seq<char>
    decreases n,
{
    if n > 0 && f % 10 == 0 {
        frac_str(f / 10, (n - 1) as nat)
    } else {
        padded_str(f, n)
    }
}

/// A number of nanoseconds as a decimal number of seconds: the whole seconds and, if there is a
/// fraction, a point and its digits without trailing zeros.
pub open spec fn secs_str(nanos: nat) -> Seq<char> {
    nat_str(nanos / 1_000_000_000) + if nanos % 1_000_000_000 == 0 {
        Seq::<char>::empty()
    } else {
        "."@ + frac_str(nanos % 1_000_000_000, 9)
    }
}

/// Append the last `n` decimal digits of `f`, with leading zeros.
fn push_padded(s: &mut String, f: u64, n: u64)
    ensures
        final(s)@ == old(s)@ + padded_str(f as nat, n as nat),
    decreases n,
{
    if n > 0 {
        push_padded(s, f / 10, n - 1);
        s.append(digit_text(f % 10));
        assert(old(s)@ + padded_str((f / 10) as nat, (n - 1) as nat) + seq![digit_char((f % 10) as nat)]
            =~= old(s)@ + padded_str(f as nat, n as nat));
    }
}

/// Append a number of nanoseconds as a decimal number of seconds.
pub fn push_secs(s: &mut String, nanos: u64)
    ensures
        final(s)@ == old(s)@ + secs_str(nanos as nat),
{
    let ghost start = s@;
    push_u64(s, nanos / 1_000_000_000);
    let frac = nanos % 1_000_000_000;
    if frac != 0 {
        s.append(".");
        let mut f = frac;
        let mut n: u64 = 9;
        while n > 0 && f % 10 == 0
            invariant
                n <= 9,
                frac_str(f as nat, n as nat) == frac_str(frac as nat, 9),
            decreases n,
        {
            f = f / 10;
            n = n - 1;
        }
        push_padded(s, f, n);
        proof {
            reveal_strlit(".");
        }
        assert(s@ =~= start + secs_str(nanos as nat));
    } else {
        assert(s@ =~= start + secs_str(nanos as nat));
    }
}

/// The decimal representation of `n`.
pub fn u64_to_string(n: u64) -> (s: String)
    ensures
        s@ == nat_str(n as nat),
{
    let mut s = String::new();
    push_u64(&mut s, n);
    assert(s@ =~= nat_str(n as nat));
    s
}

/// Append the dotted-quad representation of `addr` to `s`.
pub fn push_ipv4(s: &mut String, addr: u32)
    ensures
        final(s)@ == old(s)@ + ipv4_str(addr),
{
    push_u64(s, (addr / 0x100_0000) as u64);
    s.append(".");
    push_u64(s, ((addr / 0x1_0000) % 256) as u64);
    s.append(".");
    push_u64(s, ((addr / 0x100) % 256) as u64);
    s.append(".");
    push_u64(s, (addr % 256) as u64);
    assert(final(s)@ =~= old(s)@ + ipv4_str(addr));
}

/// Append `address/length` to `s`.
pub fn push_ipv4_net(s: &mut String, addr: u32, len: u8)
    ensures
        final(s)@ == old(s)@ + ipv4_net_str(addr, len),
{
    push_ipv4(s, addr);
    s.append("/");
    push_u64(s, len as u64);
    assert(final(s)@ =~= old(s)@ + ipv4_net_str(addr, len));
}

/// `a` occurs in `b` as a contiguous piece.
pub open spec fn is_infix(a: Seq<char>, b: Seq<char>) -> bool {
    exists|k: int| 0 <= k && k + a.len() <= b.len() && #[trigger] b.subrange(k, k + a.len()) == a
}

/// `y` occurs in `x + y + z`.
pub proof fn lemma_infix_mid(x: Seq<char>, y: Seq<char>, z: Seq<char>)
    ensures
        is_infix(y, x + y + z),
{
    let b = x + y + z;
    assert(b.subrange(x.len() as int, (x.len() + y.len()) as int) =~= y);
}

/// What occurs in `b` occurs in `x + b + z`.
pub proof fn lemma_infix_extend(a: Seq<char>, b: Seq<char>, x: Seq<char>, z: Seq<char>)
    requires
        is_infix(a, b),
    ensures
        is_infix(a, x + b + z),
{
    let k = choose|k: int| 0 <= k && k + a.len() <= b.len() && #[trigger] b.subrange(k, k + a.len()) == a;
    let c = x + b + z;
    assert(c.subrange(x.len() + k, x.len() + k + a.len()) =~= b.subrange(k, k + a.len()));
}

/// What occurs in a piece of `c` occurs in `c`.
pub proof fn lemma_infix_trans(a: Seq<char>, b: Seq<char>, c: Seq<char>)
    requires
        is_infix(a, b),
        is_infix(b, c),
    ensures
        is_infix(a, c),
{
    let j = choose|j: int| 0 <= j && j + a.len() <= b.len() && #[trigger] b.subrange(j, j + a.len()) == a;
    let k = choose|k: int| 0 <= k && k + b.len() <= c.len() && #[trigger] c.subrange(k, k + b.len()) == b;
    assert(c.subrange(k + j, k + j + a.len()) =~= b.subrange(j, j + a.len()));
}

/// Each part occurs in the concatenation of the parts.
pub proof fn lemma_concat_part(parts: Seq<Seq<char>>, i: int)
    requires
        0 <= i < parts.len(),
    ensures
        is_infix(parts[i], concat(parts)),
    decreases parts.len(),
{
    let d = parts.drop_last();
    if i == parts.len() - 1 {
        lemma_infix_mid(concat(d), parts[i], Seq::empty());
        assert(concat(d) + parts[i] + Seq::<char>::empty() =~= concat(parts));
    } else {
        lemma_concat_part(d, i);
        assert(d[i] == parts[i]);
        lemma_infix_extend(parts[i], concat(d), Seq::empty(), parts.last());
        assert(Seq::<char>::empty() + concat(d) + parts.last() =~= concat(parts));
    }
}

/// Each part occurs in the parts joined by a separator.
pub proof fn lemma_join_part(parts: Seq<Seq<char>>, sep: Seq<char>, i: int)
    requires
        0 <= i < parts.len(),
    ensures
        is_infix(parts[i], join(parts, sep)),
    decreases parts.len(),
{
    let d = parts.drop_last();
    if parts.len() == 1 {
        lemma_infix_mid(Seq::empty(), parts[0], Seq::empty());
        assert(Seq::<char>::empty() + parts[0] + Seq::<char>::empty() =~= parts[0]);
    } else if i == parts.len() - 1 {
        lemma_infix_mid(join(d, sep) + sep, parts[i], Seq::empty());
        assert(join(d, sep) + sep + parts[i] + Seq::<char>::empty() =~= join(parts, sep));
    } else {
        lemma_join_part(d, sep, i);
        assert(d[i] == parts[i]);
        lemma_infix_extend(parts[i], join(d, sep), Seq::empty(), sep + parts.last());
        assert(Seq::<char>::empty() + join(d, sep) + (sep + parts.last()) =~= join(parts, sep));
    }
}

/// The value of a decimal digit character.
pub open spec fn digit_value(c: char) -> nat {
    if c == '1' { 1 }
    else if c == '2' { 2 }
    else if c == '3' { 3 }
    else if c == '4' { 4 }
    else if c == '5' { 5 }
    else if c == '6' { 6 }
    else if c == '7' { 7 }
    else if c == '8' { 8 }
    else if c == '9' { 9 }
    else { 0 }
}

/// The character is a decimal digit.
pub open spec fn is_digit(c: char) -> bool {
    c == '0' || c == '1' || c == '2' || c == '3' || c == '4' || c == '5' || c == '6' || c == '7' || c == '8' || c == '9'
}

/// The value of a string of decimal digits.
pub open spec fn decimal_value(s: Seq<char>) -> nat
    decreases s.len(),
{
    if s.len() == 0 {
        0
    } else {
        decimal_value(s.drop_last()) * 10 + digit_value(s.last())
    }
}

/// Ten to the power of `k`.
pub open spec fn pow10(k: nat) -> nat
    decreases k,
{
    if k == 0 { 1 } else { 10 * pow10((k - 1) as nat) }
}

/// The digit of a number below ten reads back as the number.
proof fn lemma_digit(d: nat)
    requires
        d < 10,
    ensures
        digit_value(digit_char(d)) == d,
        is_digit(digit_char(d)),
        (digit_char(d) == '0') == (d == 0),
{
}

/// The last `n` digits, zero-padded, of a number below `10^n` are `n` digits that read back as
/// the number.
proof fn lemma_padded_value(f: nat, n: nat)
    requires
        f < pow10(n),
    ensures
        padded_str(f, n).len() == n,
        decimal_value(padded_str(f, n)) == f,
        forall|i: int| 0 <= i < n ==> is_digit(#[trigger] padded_str(f, n)[i]),
        n > 0 ==> padded_str(f, n).last() == digit_char(f % 10),
    decreases n,
{
    if n > 0 {
        assert(f / 10 < pow10((n - 1) as nat)) by {
            assert(pow10(n) == 10 * pow10((n - 1) as nat));
        }
        lemma_padded_value(f / 10, (n - 1) as nat);
        lemma_digit(f % 10);
        let p = padded_str(f, n);
        assert(p.drop_last() =~= padded_str(f / 10, (n - 1) as nat));
        assert forall|i: int| 0 <= i < n implies is_digit(#[trigger] p[i]) by {
            if i < n - 1 {
                assert(p[i] == padded_str(f / 10, (n - 1) as nat)[i]);
            }
        }
    } else {
        assert(f == 0);
    }
}

/// The fraction digits of a non-zero number below `10^n`, without trailing zeros, followed by
/// as many zeros as were removed, give the number back.
proof fn lemma_frac_value(f: nat, n: nat)
    requires
        0 < f < pow10(n),
    ensures
        1 <= frac_str(f, n).len() <= n,
        frac_str(f, n).last() != '0',
        forall|i: int| 0 <= i < frac_str(f, n).len() ==> is_digit(#[trigger] frac_str(f, n)[i]),
        decimal_value(frac_str(f, n)) * pow10((n - frac_str(f, n).len()) as nat) == f,
    decreases n,
{
    if n > 0 && f % 10 == 0 {
        assert(f / 10 < pow10((n - 1) as nat)) by {
            assert(pow10(n) == 10 * pow10((n - 1) as nat));
        }
        assert(f / 10 > 0);
        lemma_frac_value(f / 10, (n - 1) as nat);
        let d = frac_str(f / 10, (n - 1) as nat);
        let k = (n - 1 - d.len()) as nat;
        assert(pow10((n - d.len()) as nat) == 10 * pow10(k));
        let v = decimal_value(d);
        assert(frac_str(f, n) == d);
        assert((n - d.len()) as nat == k + 1);
        assert(v * pow10(k) == f / 10);
        assert(v * (10 * pow10(k)) == (v * pow10(k)) * 10) by (nonlinear_arith);
        assert((f / 10) * 10 == f);
    } else {
        assert(n > 0) by {
            if n == 0 {
                assert(pow10(0) == 1);
            }
        }
        lemma_padded_value(f, n);
        lemma_digit(f % 10);
        assert(frac_str(f, n) == padded_str(f, n));
        assert((n - frac_str(f, n).len()) as nat == 0);
        assert(pow10(0) == 1);
        assert(decimal_value(padded_str(f, n)) * 1 == f);
    }
}

/// `pow10(9)` is a billion.
proof fn lemma_pow10_9()
    ensures
        pow10(9) == 1_000_000_000,
{
    reveal_with_fuel(pow10, 10);
}

/// The text of a number of nanoseconds reads as that many billionths of a second: the whole
/// seconds, and for a non-zero remainder a point followed by one to nine digits, the last not
/// zero, whose value times the power of ten of the digits left out is the remainder.
pub proof fn law_secs_value(nanos: nat)
    ensures
        nanos % 1_000_000_000 == 0 ==> secs_str(nanos) == nat_str(nanos / 1_000_000_000),
        nanos % 1_000_000_000 != 0 ==> exists|d: Seq<char>| #![trigger decimal_value(d)]
            secs_str(nanos) == nat_str(nanos / 1_000_000_000) + "."@ + d
            && 1 <= d.len() <= 9 && d.last() != '0'
            && (forall|i: int| 0 <= i < d.len() ==> is_digit(#[trigger] d[i]))
            && decimal_value(d) * pow10((9 - d.len()) as nat) == nanos % 1_000_000_000,
{
    let f = nanos % 1_000_000_000;
    if f == 0 {
        assert(secs_str(nanos) =~= nat_str(nanos / 1_000_000_000));
    } else {
        lemma_pow10_9();
        lemma_frac_value(f, 9);
        let d = frac_str(f, 9);
        assert(decimal_value(d) * pow10((9 - d.len()) as nat) == f);
    }
}

/// The decimal text of a number is a non-empty string of digits, without a leading zero unless
/// it is `0`, that reads back as the number.
pub proof fn law_nat_str_value(n: nat)
    ensures
        nat_str(n).len() >= 1,
        forall|i: int| 0 <= i < nat_str(n).len() ==> is_digit(#[trigger] nat_str(n)[i]),
        decimal_value(nat_str(n)) == n,
        nat_str(n)[0] == '0' ==> n == 0,
    decreases n,
{
    if n < 10 {
        lemma_digit(n);
        assert(nat_str(n).drop_last() =~= Seq::<char>::empty());
        assert(decimal_value(Seq::<char>::empty()) == 0);
        assert(nat_str(n).last() == digit_char(n));
    } else {
        law_nat_str_value(n / 10);
        lemma_digit(n % 10);
        let s = nat_str(n);
        assert(s.drop_last() =~= nat_str(n / 10));
        assert(s.last() == digit_char(n % 10));
        assert(decimal_value(s) == decimal_value(nat_str(n / 10)) * 10 + n % 10);
        assert(s[0] == nat_str(n / 10)[0]);
        assert forall|i: int| 0 <= i < s.len() implies is_digit(#[trigger] s[i]) by {
            if i < s.len() - 1 {
                assert(s[i] == nat_str(n / 10)[i]);
            }
        }
    }
}

/// The text of an IPv4 address is four decimal numbers below 256, separated by dots, that make
/// up the address from the most significant byte on.
pub proof fn law_ipv4_str(addr: u32)
    ensures
        exists|b: (nat, nat, nat, nat)| {
            &&& b.0 < 256 && b.1 < 256 && b.2 < 256 && b.3 < 256
            &&& b.0 * 0x100_0000 + b.1 * 0x1_0000 + b.2 * 0x100 + b.3 == addr
            &&& ipv4_str(addr) == nat_str(b.0) + "."@ + nat_str(b.1) + "."@ + nat_str(b.2) + "."@ + nat_str(b.3)
        },
{
    let b0 = addr / 0x100_0000;
    let b1 = (addr / 0x1_0000) % 256;
    let b2 = (addr / 0x100) % 256;
    let b3 = addr % 256;
    assert(b0 < 256);
    assert(b0 * 0x100_0000 + b1 * 0x1_0000 + b2 * 0x100 + b3 == addr) by (nonlinear_arith)
        requires
            b0 == addr / 0x100_0000,
            b1 == (addr / 0x1_0000) % 256,
            b2 == (addr / 0x100) % 256,
            b3 == addr % 256,
    {
        assert(addr == (addr / 0x100) * 0x100 + addr % 0x100);
        assert(addr / 0x100 == (addr / 0x1_0000) * 0x100 + (addr / 0x100) % 0x100);
        assert(addr / 0x1_0000 == (addr / 0x100_0000) * 0x100 + (addr / 0x1_0000) % 0x100);
    }
    let b = (b0 as nat, b1 as nat, b2 as nat, b3 as nat);
    assert(ipv4_str(addr) == nat_str(b.0) + "."@ + nat_str(b.1) + "."@ + nat_str(b.2) + "."@ + nat_str(b.3));
}

} // verus!
