//! The actor-hierarchy example: the main actor starts two children, each of
//! which starts three of its own, and then sends a message to an address on
//! which no actor lives, `<bad:13>`, to show how the node treats mail that
//! cannot be delivered.
//!
//! Addresses are written in the node's notation: up to sixteen hexadecimal
//! digits between corner brackets, where one `:` may stand for the run of
//! zero digits that brings the count to sixteen. Reading that notation is the
//! actor runtime's own business, which this module calls.
use vstd::prelude::*;

verus! {

/// The value of a hexadecimal digit, in either case.
pub open spec fn hex_digit_value(c: char) -> Option<nat> {
    if '0' <= c && c <= '9' {
        Some(((c as u32) - ('0' as u32)) as nat)
    } else if 'a' <= c && c <= 'f' {
        Some(((c as u32) - ('a' as u32) + 10) as nat)
    } else if 'A' <= c && c <= 'F' {
        Some(((c as u32) - ('A' as u32) + 10) as nat)
    } else {
        None
    }
}

/// Sixteen to the power `e`.
pub open spec fn pow16(e: nat) -> nat
    decreases e,
{
    if e == 0 {
        1
    } else {
        16 * pow16((e - 1) as nat)
    }
}

/// How many `:` the text holds.
pub open spec fn colon_count(s: Seq<char>) -> nat
    decreases s.len(),
{
    if s.len() == 0 {
        0
    } else {
        colon_count(s.drop_last()) + if s.last() == ':' {
            1nat
        } else {
            0nat
        }
    }
}

/// The number that the text between the brackets denotes, read digit by
/// digit, where `:` stands for `gap + 1` zero digits; `None` at a character
/// that is neither a hexadecimal digit nor `:`.
pub open spec fn address_digits_value(inner: Seq<char>, gap: nat) -> Option<nat>
    decreases inner.len(),
{
    if inner.len() == 0 {
        Some(0)
    } else {
        match address_digits_value(inner.drop_last(), gap) {
            None => None,
            Some(v) => if inner.last() == ':' {
                Some(v * pow16(gap + 1))
            } else {
                match hex_digit_value(inner.last()) {
                    Some(d) => Some(v * 16 + d),
                    None => None,
                }
            },
        }
    }
}

/// The plain value of the address written as `text` in the node's notation:
/// `<`, at most sixteen characters that are hexadecimal digits or a single
/// `:`, and `>`; `None` for any other text.
pub open spec fn address_from_text(text: Seq<char>) -> Option<u64> {
    if text.len() >= 2 && text[0] == '<' && text.last() == '>' {
        let inner = text.subrange(1, text.len() - 1);
        if inner.len() <= 16 && colon_count(inner) <= 1 {
            match address_digits_value(inner, (16 - inner.len()) as nat) {
                Some(v) => Some(v as u64),
                None => None,
            }
        } else {
            None
        }
    } else {
        None
    }
}

/// Reads an address with `mm1::address::Address`'s `FromStr` and gives its
/// plain value (`Address::into_u64`). The contract states the notation as
/// the runtime reads it: the brackets, at most sixteen characters between
/// them, hexadecimal digits in either case, and at most one `:` standing for
/// the zero digits that make up sixteen.
#[verifier::external_body]
fn parse_address(text: &str) -> (r: Option<u64>)
    ensures
        r == address_from_text(text@),
{
    match text.parse::<mm1::address::Address>() {
        Ok(address) => Some(address.into_u64()),
        Err(_) => None,
    }
}

/// The address, as its plain value, to which the main actor sends a message
/// that no actor receives: `<bad:13>`.
pub fn stray_message_target() -> (r: Option<u64>)
    ensures
        r == address_from_text("<bad:13>"@),
        r == Some(0xbad0_0000_0000_0013u64),
{
    let r = parse_address("<bad:13>");
    proof {
        reveal_strlit("<bad:13>");
        let t = "<bad:13>"@;
        let inner = seq!['b', 'a', 'd', ':', '1', '3'];
        assert(t.subrange(1, t.len() - 1) =~= inner);
        assert(inner.drop_last() =~= seq!['b', 'a', 'd', ':', '1']);
        assert(seq!['b', 'a', 'd', ':', '1'].drop_last() =~= seq!['b', 'a', 'd', ':']);
        assert(seq!['b', 'a', 'd', ':'].drop_last() =~= seq!['b', 'a', 'd']);
        assert(seq!['b', 'a', 'd'].drop_last() =~= seq!['b', 'a']);
        assert(seq!['b', 'a'].drop_last() =~= seq!['b']);
        assert(seq!['b'].drop_last() =~= Seq::<char>::empty());
        assert(colon_count(Seq::<char>::empty()) == 0);
        assert(address_digits_value(Seq::<char>::empty(), 10) == Some(0nat));
        assert(seq!['b'].last() == 'b');
        assert(colon_count(seq!['b']) == 0);
        assert(colon_count(seq!['b', 'a']) == 0);
        assert(colon_count(seq!['b', 'a', 'd']) == 0);
        assert(colon_count(seq!['b', 'a', 'd', ':']) == 1);
        assert(colon_count(seq!['b', 'a', 'd', ':', '1']) == 1);
        assert(colon_count(inner) == 1);
        assert(address_digits_value(seq!['b'], 10) == Some(11nat));
        assert(address_digits_value(seq!['b', 'a'], 10) == Some(0xbanat));
        assert(address_digits_value(seq!['b', 'a', 'd'], 10) == Some(0xbadnat));
        assert(pow16(0) == 1);
        assert(pow16(1) == 0x10);
        assert(pow16(2) == 0x100);
        assert(pow16(3) == 0x1000);
        assert(pow16(4) == 0x1_0000);
        assert(pow16(5) == 0x10_0000);
        assert(pow16(6) == 0x100_0000);
        assert(pow16(7) == 0x1000_0000);
        assert(pow16(8) == 0x1_0000_0000);
        assert(pow16(9) == 0x10_0000_0000);
        assert(pow16(10) == 0x100_0000_0000);
        assert(pow16(11) == 0x1000_0000_0000);
        assert(address_digits_value(seq!['b', 'a', 'd', ':'], 10) == Some(
            0xbad_0000_0000_000nat,
        ));
        assert(address_digits_value(seq!['b', 'a', 'd', ':', '1'], 10) == Some(
            0xbad_0000_0000_0001nat,
        ));
        assert(address_digits_value(inner, 10) == Some(0xbad0_0000_0000_0013nat));
    }
    r
}

} // verus!
