use actor_apps::hierarchy::stray_message_target;

#[test]
fn stray_target_is_read_in_address_notation() {
    assert_eq!(stray_message_target(), Some(0xbad0_0000_0000_0013));
}

/// The notation as the library's contract states it, computed directly.
fn notation(text: &str) -> Option<u64> {
    let t: Vec<char> = text.chars().collect();
    if t.len() < 2 || t[0] != '<' || t[t.len() - 1] != '>' {
        return None;
    }
    let inner = &t[1..t.len() - 1];
    if inner.len() > 16 || inner.iter().filter(|c| **c == ':').count() > 1 {
        return None;
    }
    let gap = 16 - inner.len() as u32;
    let mut v: u128 = 0;
    for c in inner {
        if *c == ':' {
            v *= 16u128.pow(gap + 1);
        } else {
            v = v * 16 + c.to_digit(16)? as u128;
        }
    }
    Some(v as u64)
}

#[test]
fn address_notation_agrees_with_the_runtime() {
    let texts = [
        "<>", "<:>", "<::>", "<ffff:>", "<FFFF:84b03>", "<0123456789abcdef>", "<0123456789abcdef0>",
        "<g>", "<é>", "<1:2:3>", "ab", "<", ">", "<13>", "<:1>", "<bad:13>", "<aabbccddee:>",
        "<ffffffffffffffff>", "< 1>", "<+1>", "<1:>", "<é:1>",
    ];
    for text in texts {
        let runtime = text.parse::<mm1::address::Address>().ok().map(|a| a.into_u64());
        assert_eq!(runtime, notation(text), "text {:?}", text);
    }
}
