use vstd::prelude::*;

verus! {

/// The character of decimal digit `d`.
pub open spec fn digit_char(d: int) -> char {
    (d + 48) as char
}

/// The decimal digits of `n`, most significant first, without leading zeros.
pub open spec fn dec_nat(n: nat) -> Seq<char>
    decreases n,
{
    if n < 10 {
        seq![digit_char(n as int)]
    } else {
        dec_nat(n / 10).push(digit_char((n % 10) as int))
    }
}

/// `i` written in decimal, with a leading `-` when negative.
pub open spec fn dec(i: int) -> Seq<char> {
    if i < 0 {
        seq!['-'] + dec_nat((-i) as nat)
    } else {
        dec_nat(i as nat)
    }
}

/// Two numbers and a line break: `"a b\n"`.
pub open spec fn line2(a: int, b: int) -> Seq<char> {
    dec(a) + seq![' '] + dec(b) + seq!['\n']
}

/// Three numbers and a line break: `"a b c\n"`.
pub open spec fn line3(a: int, b: int, c: int) -> Seq<char> {
    dec(a) + seq![' '] + dec(b) + seq![' '] + dec(c) + seq!['\n']
}

/// Appends `n` in decimal.
pub fn push_nat(out: &mut Vec<char>, n: u64)
    ensures
        final(out)@ == old(out)@ + dec_nat(n as nat),
    decreases n,
{
    if n >= 10 {
        push_nat(out, n / 10);
    }
    let d: u8 = (n % 10) as u8;
    out.push((d + 48u8) as char);
    assert(final(out)@ =~= old(out)@ + dec_nat(n as nat));
}

/// Appends `n` in decimal, with a leading `-` when negative.
pub fn push_int(out: &mut Vec<char>, n: i64)
    requires
        n > i64::MIN,
    ensures
        final(out)@ == old(out)@ + dec(n as int),
{
    if n < 0 {
        out.push('-');
        push_nat(out, (-n) as u64);
        assert(final(out)@ =~= old(out)@ + dec(n as int));
    } else {
        push_nat(out, n as u64);
    }
}

/// Appends `"a b c\n"`.
pub fn push_line3(out: &mut Vec<char>, a: i64, b: i64, c: i64)
    requires
        a > i64::MIN,
        b > i64::MIN,
        c > i64::MIN,
    ensures
        final(out)@ == old(out)@ + line3(a as int, b as int, c as int),
{
    push_int(out, a);
    out.push(' ');
    push_int(out, b);
    out.push(' ');
    push_int(out, c);
    out.push('\n');
    assert(final(out)@ =~= old(out)@ + line3(a as int, b as int, c as int));
}

/// Calls `String::push`, which std documents as appending the character to the end.
#[verifier::external_body]
fn push_char(s: &mut String, c: char)
    ensures
        final(s)@ == old(s)@.push(c),
{
    s.push(c);
}

/// The string of the characters of `v`, in order.
pub fn string_from_chars(v: &Vec<char>) -> (s: String)
    ensures
        s@ == v@,
{
    let mut s = String::new();
    let mut i: usize = 0;
    while i < v.len()
        invariant
            i <= v@.len(),
            s@ == v@.subrange(0, i as int),
        decreases v@.len() - i,
    {
        push_char(&mut s, v[i]);
        assert(v@.subrange(0, i + 1) =~= v@.subrange(0, i as int).push(v@[i as int]));
        i = i + 1;
    }
    assert(v@.subrange(0, v@.len() as int) =~= v@);
    s
}

} // verus!
