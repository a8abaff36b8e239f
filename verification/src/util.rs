//! Printing bytes for inspection.
use vstd::prelude::*;
use vstd::string::StringExecFns;

verus! {

/// The line that opens and closes a byte dump.
pub const DUMP_RULE: &'static str = "// ------------------ print byte ------------------ //\n";

/// The character of a decimal digit.
pub open spec fn digit_char(d: int) -> char {
    (48 + d) as char
}

/// The decimal digits of `n`, most significant first.
pub open spec fn decimal(n: nat) -> Seq<char>
    decreases n,
{
    if n < 10 {
        seq![digit_char(n as int)]
    } else {
        decimal(n / 10).push(digit_char((n % 10) as int))
    }
}

/// Each byte in decimal, followed by a space.
pub open spec fn decimal_line(b: Seq<u8>) -> Seq<char>
    decreases b.len(),
{
    if b.len() == 0 {
        Seq::empty()
    } else {
        decimal_line(b.drop_last()) + decimal(b.last() as nat) + seq![' ']
    }
}

/// Each byte as the character with the same code.
pub open spec fn char_line(b: Seq<u8>) -> Seq<char> {
    b.map_values(|x: u8| x as char)
}

/// The dump of `b`: a rule, the bytes in decimal, the bytes as characters,
/// and a rule.
pub open spec fn dump(b: Seq<u8>) -> Seq<char> {
    DUMP_RULE@ + decimal_line(b) + seq!['\n'] + char_line(b) + seq!['\n'] + DUMP_RULE@
}

/// Calls `String::push`, which appends one character.
#[verifier::external_body]
fn push_char(s: &mut String, c: char)
    ensures
        final(s)@ == old(s)@.push(c),
{
    s.push(c);
}

/// Appends the decimal digits of `x`.
fn push_decimal(s: &mut String, x: u8)
    ensures
        final(s)@ == old(s)@ + decimal(x as nat),
{
    let ones: u8 = x % 10;
    let tens: u8 = (x / 10) % 10;
    let hundreds: u8 = x / 100;
    if x >= 100 {
        push_char(s, (48 + hundreds) as char);
    }
    if x >= 10 {
        push_char(s, (48 + tens) as char);
    }
    push_char(s, (48 + ones) as char);
    proof {
        let n = x as nat;
        if n >= 100 {
            assert(decimal(n / 100) == seq![digit_char((n / 100) as int)]);
            assert(decimal(n / 10) == decimal(n / 100).push(digit_char(((n / 10) % 10) as int)));
        } else if n >= 10 {
            assert(decimal(n / 10) == seq![digit_char((n / 10) as int)]);
        }
        assert(final(s)@ =~= old(s)@ + decimal(n));
    }
}

/// Dumps `byt` for inspection: a rule line, the bytes in decimal each
/// followed by a space, the bytes as characters, and a rule line.
pub fn sprint_byte(byt: &[u8]) -> (r: String)
    ensures
        r@ == dump(byt@),
{
    let mut s = String::new();
    s.append(DUMP_RULE);
    let mut i: usize = 0;
    while i < byt.len()
        invariant
            i <= byt@.len(),
            s@ == DUMP_RULE@ + decimal_line(byt@.take(i as int)),
        decreases byt@.len() - i,
    {
        push_decimal(&mut s, byt[i]);
        push_char(&mut s, ' ');
        proof {
            assert(byt@.take(i + 1).drop_last() =~= byt@.take(i as int));
        }
        i = i + 1;
    }
    assert(byt@.take(byt@.len() as int) =~= byt@);
    push_char(&mut s, '\n');
    let mut j: usize = 0;
    while j < byt.len()
        invariant
            j <= byt@.len(),
            s@ == DUMP_RULE@ + decimal_line(byt@) + seq!['\n'] + char_line(byt@.take(j as int)),
        decreases byt@.len() - j,
    {
        push_char(&mut s, byt[j] as char);
        proof {
            assert(char_line(byt@.take(j + 1)) =~= char_line(byt@.take(j as int)).push(byt@[j as int] as char));
        }
        j = j + 1;
    }
    assert(byt@.take(byt@.len() as int) =~= byt@);
    push_char(&mut s, '\n');
    s.append(DUMP_RULE);
    assert(s@ =~= dump(byt@));
    s
}

} // verus!
