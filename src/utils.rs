//! Display of hand notation with suit glyphs.
use vstd::prelude::*;

verus! {

/// What character `c` of hand notation is displayed as: `10` for a ten,
/// a glyph for each suit letter, any other character as itself.
pub open spec fn glyph(c: char) -> Seq<char> {
    if c == 'T' {
        seq!['1', '0']
    } else if c == 's' {
        seq!['\u{201a}', '\u{f4}', '\u{dd}']
    } else if c == 'c' {
        seq!['\u{201a}', '\u{f4}', '\u{a3}']
    } else if c == 'd' {
        seq!['\u{201a}', '\u{f4}', '\u{b6}']
    } else if c == 'h' {
        seq!['\u{201a}', '\u{f4}', '\u{2022}']
    } else {
        seq![c]
    }
}

/// The display of the first `n` characters of `s`.
pub open spec fn pretty_prefix(s: Seq<char>, n: nat) -> Seq<char>
    decreases n,
{
    if n == 0 || n > s.len() {
        seq![]
    } else {
        pretty_prefix(s, (n - 1) as nat) + glyph(s[n - 1])
    }
}

/// Relies on `String::push`: appends one character.
#[verifier::external_body]
fn push_char(s: &mut String, c: char)
    ensures
        final(s)@ == old(s)@.push(c),
{
    s.push(c)
}

fn push_glyph(out: &mut String, c: char)
    ensures
        final(out)@ == old(out)@ + glyph(c),
{
    let ghost start = out@;
    match c {
        'T' => {
            push_char(out, '1');
            push_char(out, '0');
        },
        's' => {
            push_char(out, '\u{201a}');
            push_char(out, '\u{f4}');
            push_char(out, '\u{dd}');
        },
        'c' => {
            push_char(out, '\u{201a}');
            push_char(out, '\u{f4}');
            push_char(out, '\u{a3}');
        },
        'd' => {
            push_char(out, '\u{201a}');
            push_char(out, '\u{f4}');
            push_char(out, '\u{b6}');
        },
        'h' => {
            push_char(out, '\u{201a}');
            push_char(out, '\u{f4}');
            push_char(out, '\u{2022}');
        },
        _ => push_char(out, c),
    }
    assert(out@ =~= start + glyph(c));
}

/// Hand notation with each suit letter shown as a glyph and a ten as `10`.
pub fn prettify(hand: &str) -> (r: String)
    ensures
        r@ == pretty_prefix(hand@, hand@.len()),
{
    let n = hand.unicode_len();
    let mut out = String::new();
    let mut i: usize = 0;
    while i < n
        invariant
            n == hand@.len(),
            i <= n,
            out@ == pretty_prefix(hand@, i as nat),
        decreases n - i,
    {
        push_glyph(&mut out, hand.get_char(i));
        i = i + 1;
    }
    out
}

} // verus!
