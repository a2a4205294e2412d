//! Character-level helpers on `String` and `str`: building strings one
//! character at a time, decimal and hexadecimal rendering, prefixes.
use vstd::prelude::*;

verus! {

/// Appends one character to a `String` (`String::push`).
#[verifier::external_body]
pub(crate) fn push_char(s: &mut String, c: char)
    ensures
        final(s)@ == old(s)@.push(c),
{
    s.push(c);
}

/// The characters of `s`, in order.
pub fn chars_of(s: &str) -> (v: Vec<char>)
    ensures
        v@ == s@,
{
    let mut v: Vec<char> = Vec::new();
    for c in it: s.chars()
        invariant
            v@ == it.seq().take(it.index() as int),
            it.seq() == s@,
    {
        v.push(c);
    }
    v
}

/// Appends the characters of `cs` to `s`.
pub fn push_chars(s: &mut String, cs: &[char])
    ensures
        final(s)@ == old(s)@ + cs@,
{
    let mut i: usize = 0;
    while i < cs.len()
        invariant
            i <= cs@.len(),
            s@ == old(s)@ + cs@.take(i as int),
        decreases cs@.len() - i,
    {
        push_char(s, cs[i]);
        proof {
            assert(cs@.take(i + 1) =~= cs@.take(i as int).push(cs@[i as int]));
        }
        i = i + 1;
    }
    proof {
        assert(cs@.take(i as int) =~= cs@);
    }
}

/// Appends the characters of `t` to `s`.
pub fn push_str(s: &mut String, t: &str)
    ensures
        final(s)@ == old(s)@ + t@,
{
    let cs = chars_of(t);
    push_chars(s, cs.as_slice());
}

/// Whether two strings hold the same characters.
pub fn str_eq(a: &str, b: &str) -> (r: bool)
    ensures
        r == (a@ == b@),
{
    let x = a.to_owned();
    let y = b.to_owned();
    x == y
}

/// Whether `s` begins with `prefix`.
pub fn starts_with(s: &str, prefix: &str) -> (r: bool)
    ensures
        r == (prefix@.len() <= s@.len() && s@.take(prefix@.len() as int) == prefix@),
{
    let sc = chars_of(s);
    let pc = chars_of(prefix);
    if pc.len() > sc.len() {
        return false;
    }
    let mut i: usize = 0;
    while i < pc.len()
        invariant
            pc@ == prefix@,
            sc@ == s@,
            pc@.len() <= sc@.len(),
            i <= pc@.len(),
            forall|j: int| 0 <= j < i ==> sc@[j] == pc@[j],
        decreases pc@.len() - i,
    {
        if sc[i] != pc[i] {
            proof {
                assert(s@.take(prefix@.len() as int)[i as int] != prefix@[i as int]);
            }
            return false;
        }
        i = i + 1;
    }
    proof {
        assert(s@.take(prefix@.len() as int) =~= prefix@);
    }
    true
}

/// The ASCII decimal digit for `d < 10`.
pub open spec fn digit_char(d: nat) -> char {
    ((d + 48) as u8) as char
}

/// `n` written in decimal, without leading zeros.
pub open spec fn decimal(n: nat) -> Seq<char>
    decreases n,
{
    if n < 10 {
        seq![digit_char(n)]
    } else {
        decimal(n / 10).push(digit_char(n % 10))
    }
}

/// Appends `n` written in decimal to `s`.
pub fn push_decimal(s: &mut String, n: u64)
    ensures
        final(s)@ == old(s)@ + decimal(n as nat),
    decreases n,
{
    if n >= 10 {
        push_decimal(s, n / 10);
    }
    let d: u8 = (n % 10) as u8;
    push_char(s, (d + 48) as char);
    proof {
        if n >= 10 {
            assert(old(s)@ + decimal(n as nat) =~= old(s)@ + decimal((n / 10) as nat) + seq![
                digit_char((n % 10) as nat),
            ]);
        } else {
            assert(old(s)@ + decimal(n as nat) =~= old(s)@.push(digit_char(n as nat)));
        }
    }
}

/// `n` written in decimal.
pub fn decimal_string(n: u64) -> (s: String)
    ensures
        s@ == decimal(n as nat),
{
    let mut s = String::new();
    push_decimal(&mut s, n);
    proof {
        assert(s@ =~= decimal(n as nat));
    }
    s
}

/// The bytes of the decimal rendering of `n` (each an ASCII digit).
pub open spec fn decimal_bytes(n: nat) -> Seq<u8> {
    decimal(n).map_values(|c: char| c as u8)
}

/// Appends the ASCII bytes of `n` written in decimal to `v`.
pub fn push_decimal_bytes(v: &mut Vec<u8>, n: u64)
    ensures
        final(v)@ == old(v)@ + decimal_bytes(n as nat),
    decreases n,
{
    if n >= 10 {
        push_decimal_bytes(v, n / 10);
    }
    let d: u8 = (n % 10) as u8;
    v.push(d + 48);
    proof {
        if n >= 10 {
            assert(decimal_bytes(n as nat) =~= decimal_bytes((n / 10) as nat).push(
                (d + 48) as u8,
            ));
        } else {
            assert(decimal_bytes(n as nat) =~= seq![(d + 48) as u8]);
        }
        assert(v@ =~= old(v)@ + decimal_bytes(n as nat));
    }
}

/// The lower-case hexadecimal digit for `d < 16`.
pub open spec fn hex_char(d: nat) -> char {
    if d < 10 {
        ((d + 48) as u8) as char
    } else {
        ((d + 87) as u8) as char
    }
}

/// Each byte of `bytes` as two lower-case hexadecimal digits, high first.
pub open spec fn hex_lower(bytes: Seq<u8>) -> Seq<char>
    decreases bytes.len(),
{
    if bytes.len() == 0 {
        Seq::empty()
    } else {
        hex_lower(bytes.drop_last()).push(hex_char((bytes.last() / 16) as nat)).push(
            hex_char((bytes.last() % 16) as nat),
        )
    }
}

/// Hexadecimal takes two digits per byte.
pub proof fn lemma_hex_lower_len(bytes: Seq<u8>)
    ensures
        hex_lower(bytes).len() == 2 * bytes.len(),
    decreases bytes.len(),
{
    if bytes.len() > 0 {
        lemma_hex_lower_len(bytes.drop_last());
    }
}

/// Whether `c` is an ASCII decimal digit.
pub open spec fn is_digit_char(c: char) -> bool {
    48 <= c as int <= 57
}

/// Whether `c` is a lower-case hexadecimal digit.
pub open spec fn is_hex_digit_char(c: char) -> bool {
    is_digit_char(c) || 97 <= c as int <= 102
}

/// A decimal rendering is made of digits only, at least one.
pub proof fn lemma_decimal_digits(n: nat)
    ensures
        decimal(n).len() >= 1,
        forall|i: int| 0 <= i < decimal(n).len() ==> is_digit_char(#[trigger] decimal(n)[i]),
    decreases n,
{
    if n >= 10 {
        lemma_decimal_digits(n / 10);
        assert(digit_char(n % 10) as int == n % 10 + 48);
    } else {
        assert(digit_char(n) as int == n + 48);
    }
}

/// A hexadecimal rendering is made of hexadecimal digits only.
pub proof fn lemma_hex_lower_digits(bytes: Seq<u8>)
    ensures
        forall|i: int|
            0 <= i < hex_lower(bytes).len() ==> is_hex_digit_char(#[trigger] hex_lower(bytes)[i]),
    decreases bytes.len(),
{
    if bytes.len() > 0 {
        lemma_hex_lower_digits(bytes.drop_last());
        let hi = (bytes.last() / 16) as nat;
        let lo = (bytes.last() % 16) as nat;
        assert(is_hex_digit_char(hex_char(hi)));
        assert(is_hex_digit_char(hex_char(lo)));
        let prev = hex_lower(bytes.drop_last());
        let h = hex_lower(bytes);
        assert(h =~= prev.push(hex_char(hi)).push(hex_char(lo)));
        assert forall|i: int| 0 <= i < h.len() implies is_hex_digit_char(#[trigger] h[i]) by {
            if i < prev.len() {
                assert(h[i] == prev[i]);
            }
        }
    }
}

proof fn lemma_hex_char_injective(a: nat, b: nat)
    requires
        a < 16,
        b < 16,
        hex_char(a) == hex_char(b),
    ensures
        a == b,
{
    assert(hex_char(a) as int == if a < 10 { a + 48 } else { a + 87 });
    assert(hex_char(b) as int == if b < 10 { b + 48 } else { b + 87 });
}

/// Different bytes render to different hexadecimal.
pub proof fn lemma_hex_lower_injective(a: Seq<u8>, b: Seq<u8>)
    requires
        hex_lower(a) == hex_lower(b),
    ensures
        a == b,
    decreases a.len(),
{
    lemma_hex_lower_len(a);
    lemma_hex_lower_len(b);
    if a.len() > 0 {
        let ha = hex_lower(a);
        assert(ha[ha.len() - 2] == hex_char((a.last() / 16) as nat));
        assert(ha[ha.len() - 1] == hex_char((a.last() % 16) as nat));
        assert(ha[ha.len() - 2] == hex_char((b.last() / 16) as nat));
        assert(ha[ha.len() - 1] == hex_char((b.last() % 16) as nat));
        lemma_hex_char_injective((a.last() / 16) as nat, (b.last() / 16) as nat);
        lemma_hex_char_injective((a.last() % 16) as nat, (b.last() % 16) as nat);
        assert(a.last() == b.last());
        assert(hex_lower(a.drop_last()) =~= ha.drop_last().drop_last());
        assert(hex_lower(b.drop_last()) =~= ha.drop_last().drop_last());
        lemma_hex_lower_injective(a.drop_last(), b.drop_last());
        assert(a =~= a.drop_last().push(a.last()));
        assert(b =~= b.drop_last().push(b.last()));
    }
}

fn hex_digit(d: u8) -> (c: char)
    requires
        d < 16,
    ensures
        c == hex_char(d as nat),
{
    if d < 10 {
        (d + 48) as char
    } else {
        (d + 87) as char
    }
}

/// Appends `bytes` in lower-case hexadecimal to `s`.
pub fn push_hex_lower(s: &mut String, bytes: &[u8])
    ensures
        final(s)@ == old(s)@ + hex_lower(bytes@),
{
    let mut i: usize = 0;
    while i < bytes.len()
        invariant
            i <= bytes@.len(),
            s@ == old(s)@ + hex_lower(bytes@.take(i as int)),
        decreases bytes@.len() - i,
    {
        let b = bytes[i];
        push_char(s, hex_digit(b / 16));
        push_char(s, hex_digit(b % 16));
        proof {
            assert(bytes@.take(i + 1).drop_last() =~= bytes@.take(i as int));
            assert(s@ =~= old(s)@ + hex_lower(bytes@.take(i + 1)));
        }
        i = i + 1;
    }
    proof {
        assert(bytes@.take(i as int) =~= bytes@);
    }
}

/// `name` inside directory `dir`: a `/` goes between them unless `dir` is
/// empty or already ends with one.
pub open spec fn join_spec(dir: Seq<char>, name: Seq<char>) -> Seq<char> {
    if dir.len() == 0 || dir.last() == '/' {
        dir + name
    } else {
        dir.push('/') + name
    }
}

/// `name` inside directory `dir` (see `join_spec`).
pub fn join(dir: &str, name: &str) -> (p: String)
    ensures
        p@ == join_spec(dir@, name@),
{
    let d = chars_of(dir);
    let mut p = dir.to_owned();
    if d.len() > 0 && d[d.len() - 1] != '/' {
        push_char(&mut p, '/');
    }
    push_str(&mut p, name);
    p
}

/// The number a string of decimal digits stands for, read left to right.
pub open spec fn digits_value(s: Seq<char>) -> int
    decreases s.len(),
{
    if s.len() == 0 {
        0
    } else {
        digits_value(s.drop_last()) * 10 + (s.last() as int - 48)
    }
}

/// `n` in decimal is a non-empty string of ASCII digits, without a leading
/// zero unless it is `0` itself, that reads back as `n`.
pub proof fn law_decimal_reads_back(n: nat)
    ensures
        decimal(n).len() >= 1,
        forall|i: int| 0 <= i < decimal(n).len() ==> 48 <= #[trigger] decimal(n)[i] as int <= 57,
        digits_value(decimal(n)) == n,
        decimal(n).len() > 1 ==> decimal(n)[0] as int != 48,
        n < 10 <==> decimal(n).len() == 1,
    decreases n,
{
    lemma_decimal_digits(n);
    if n >= 10 {
        law_decimal_reads_back(n / 10);
        let d = decimal(n);
        let q = decimal(n / 10);
        assert(d.drop_last() =~= q);
        assert(digit_char(n % 10) as int == n % 10 + 48);
        assert(d[0] == q[0]);
        assert(d.last() == digit_char(n % 10));
        assert(digits_value(d) == digits_value(q) * 10 + (n % 10));
        assert(n == (n / 10) * 10 + n % 10);
        if n / 10 < 10 {
            assert(digit_char(n / 10) as int == n / 10 + 48);
        }
    } else {
        assert(digit_char(n) as int == n + 48);
        assert(decimal(n).drop_last() =~= Seq::<char>::empty());
        assert(digits_value(decimal(n)) == digits_value(Seq::<char>::empty()) * 10 + (n + 48 - 48));
    }
}

/// Each byte takes two lower-case hexadecimal digits, high half first:
/// `0`-`9` for 0 to 9 and `a`-`f` for 10 to 15.
pub proof fn law_hex_lower_digits(bytes: Seq<u8>)
    ensures
        hex_lower(bytes).len() == 2 * bytes.len(),
        forall|i: int|
            0 <= i < bytes.len() ==> {
                let hi = (#[trigger] bytes[i]) / 16;
                let lo = bytes[i] % 16;
                &&& hex_lower(bytes)[2 * i] as int == if hi < 10 {
                    hi + 48
                } else {
                    hi + 87
                }
                &&& hex_lower(bytes)[2 * i + 1] as int == if lo < 10 {
                    lo + 48
                } else {
                    lo + 87
                }
            },
    decreases bytes.len(),
{
    lemma_hex_lower_len(bytes);
    if bytes.len() > 0 {
        let prev = bytes.drop_last();
        law_hex_lower_digits(prev);
        lemma_hex_lower_len(prev);
        let h = hex_lower(bytes);
        let hp = hex_lower(prev);
        assert forall|i: int| 0 <= i < bytes.len() implies {
            let hi = (#[trigger] bytes[i]) / 16;
            let lo = bytes[i] % 16;
            &&& h[2 * i] as int == if hi < 10 {
                hi + 48
            } else {
                hi + 87
            }
            &&& h[2 * i + 1] as int == if lo < 10 {
                lo + 48
            } else {
                lo + 87
            }
        } by {
            if i < prev.len() {
                assert(prev[i] == bytes[i]);
                assert(h[2 * i] == hp[2 * i]);
                assert(h[2 * i + 1] == hp[2 * i + 1]);
            } else {
                let b = bytes.last();
                assert(h[2 * i] == hex_char((b / 16) as nat));
                assert(h[2 * i + 1] == hex_char((b % 16) as nat));
                assert(hex_char((b / 16) as nat) as int == if b / 16 < 10 {
                    b / 16 + 48
                } else {
                    b / 16 + 87
                });
                assert(hex_char((b % 16) as nat) as int == if b % 16 < 10 {
                    b % 16 + 48
                } else {
                    b % 16 + 87
                });
            }
        }
    }
}

/// A path joined from a directory and a name starts with the directory and
/// ends with the name, with exactly one `/` between them when the directory
/// is not empty and does not already end with one, and nothing between them
/// otherwise.
pub proof fn law_join_one_separator(dir: Seq<char>, name: Seq<char>)
    ensures
        dir.len() > 0 && dir.last() != '/' ==> join_spec(dir, name) == dir + seq!['/'] + name,
        dir.len() == 0 || dir.last() == '/' ==> join_spec(dir, name) == dir + name,
        join_spec(dir, name).take(dir.len() as int) == dir,
        join_spec(dir, name).skip(join_spec(dir, name).len() - name.len()) == name,
{
    let p = join_spec(dir, name);
    if dir.len() > 0 && dir.last() != '/' {
        assert(dir.push('/') =~= dir + seq!['/']);
        assert(p.take(dir.len() as int) =~= dir);
        assert(p.skip(p.len() - name.len()) =~= name);
    } else {
        assert(p.take(dir.len() as int) =~= dir);
        assert(p.skip(p.len() - name.len()) =~= name);
    }
}

} // verus!
