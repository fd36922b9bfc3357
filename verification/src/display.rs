//! Text for diagnostics: numbers in decimal, entities as `<index>v<generation>`.

use vstd::prelude::*;
use vstd::string::*;

verus! {

/// The ASCII digit for `d`, below ten.
pub open spec fn digit_char(d: nat) -> char {
    (48 + d) as char
}

/// `n` written in decimal, without leading zeros.
pub open spec fn decimal(n: nat) -> Seq<char>
    decreases n,
{
    if n < 10 {
        seq![digit_char(n)]
    } else {
        decimal(n / 10).push(digit_char(n % 10))
    }
}

/// An entity, by its bits: the low half is its index, the high half its
/// generation.
pub open spec fn entity_text(bits: u64) -> Seq<char> {
    decimal((bits % 0x1_0000_0000) as nat) + seq!['v'] + decimal((bits / 0x1_0000_0000) as nat)
}

/// The entities of `nodes`, written out and separated by `sep`.
pub open spec fn entities_joined(nodes: Seq<u64>, sep: Seq<char>) -> Seq<char>
    decreases nodes.len(),
{
    if nodes.len() == 0 {
        Seq::empty()
    } else if nodes.len() == 1 {
        entity_text(nodes[0])
    } else {
        entities_joined(nodes.drop_last(), sep) + sep + entity_text(nodes.last())
    }
}

/// The one-character text of digit `d`.
fn digit_str(d: u64) -> (r: &'static str)
    requires
        d < 10,
    ensures
        r@ == seq![digit_char(d as nat)],
{
    proof {
        reveal_strlit("0");
        reveal_strlit("1");
        reveal_strlit("2");
        reveal_strlit("3");
        reveal_strlit("4");
        reveal_strlit("5");
        reveal_strlit("6");
        reveal_strlit("7");
        reveal_strlit("8");
        reveal_strlit("9");
    }
    let r = if d == 0 {
        "0"
    } else if d == 1 {
        "1"
    } else if d == 2 {
        "2"
    } else if d == 3 {
        "3"
    } else if d == 4 {
        "4"
    } else if d == 5 {
        "5"
    } else if d == 6 {
        "6"
    } else if d == 7 {
        "7"
    } else if d == 8 {
        "8"
    } else {
        "9"
    };
    assert(r@ =~= seq![digit_char(d as nat)]);
    r
}

/// `n` written in decimal.
pub fn decimal_text(n: u64) -> (r: String)
    ensures
        r@ == decimal(n as nat),
    decreases n,
{
    if n < 10 {
        String::from_str(digit_str(n))
    } else {
        let mut s = decimal_text(n / 10);
        s.append(digit_str(n % 10));
        s
    }
}

/// Appends `n` in decimal to `s`.
pub fn push_decimal(s: &mut String, n: u64)
    ensures
        final(s)@ == old(s)@ + decimal(n as nat),
{
    let t = decimal_text(n);
    s.append(t.as_str());
}

/// Appends the entity `bits` to `s`.
pub fn push_entity(s: &mut String, bits: u64)
    ensures
        final(s)@ == old(s)@ + entity_text(bits),
{
    proof {
        reveal_strlit("v");
    }
    push_decimal(s, bits % 0x1_0000_0000);
    s.append("v");
    push_decimal(s, bits / 0x1_0000_0000);
    assert(s@ =~= old(s)@ + entity_text(bits));
}

/// Appends the entities of `nodes`, separated by `sep`, to `s`.
pub fn push_entities(s: &mut String, nodes: &Vec<u64>, sep: &str)
    ensures
        final(s)@ == old(s)@ + entities_joined(nodes@, sep@),
{
    let ghost start = s@;
    let mut i: usize = 0;
    proof {
        assert(s@ =~= start + entities_joined(nodes@.subrange(0, 0), sep@));
    }
    while i < nodes.len()
        invariant
            i <= nodes@.len(),
            s@ == start + entities_joined(nodes@.subrange(0, i as int), sep@),
        decreases nodes@.len() - i,
    {
        let ghost pre = nodes@.subrange(0, i as int);
        let ghost post = nodes@.subrange(0, i + 1);
        if i > 0 {
            s.append(sep);
        }
        push_entity(s, nodes[i]);
        proof {
            assert(post.drop_last() =~= pre);
            assert(post.last() == nodes@[i as int]);
            if i == 0 {
                assert(post.len() == 1);
                assert(s@ =~= start + entities_joined(post, sep@));
            } else {
                assert(entities_joined(post, sep@) == entities_joined(pre, sep@) + sep@ + entity_text(nodes@[i as int]));
                assert(s@ =~= start + entities_joined(post, sep@));
            }
        }
        i = i + 1;
    }
    proof {
        assert(nodes@.subrange(0, nodes@.len() as int) =~= nodes@);
    }
}

} // verus!
