//! Identifiers in hexadecimal notation.

use vstd::prelude::*;
use vstd::string::StringExecFns;
use vstd::utf8::{encode_utf8, is_ascii_chars, is_ascii_chars_encode_utf8};

use crate::bytes::EntityId;
use crate::text::digit_char;

verus! {

/// The character of a hexadecimal digit.
pub open spec fn hex_char(d: nat) -> char {
    if d < 10 {
        digit_char(d)
    } else if d == 10 {
        'a'
    } else if d == 11 {
        'b'
    } else if d == 12 {
        'c'
    } else if d == 13 {
        'd'
    } else if d == 14 {
        'e'
    } else {
        'f'
    }
}

/// Bytes in hexadecimal notation, two digits for each.
pub open spec fn hex_of(bytes: Seq<u8>) -> Seq<char>
    decreases bytes.len(),
{
    if bytes.len() == 0 {
        Seq::empty()
    } else {
        hex_of(bytes.drop_last()).push(hex_char(bytes.last() as nat / 16)).push(
            hex_char(bytes.last() as nat % 16),
        )
    }
}

/// The value of a hexadecimal digit, in either case.
pub open spec fn hex_digit(b: u8) -> Option<nat> {
    if 48 <= b <= 57 {
        Some((b - 48) as nat)
    } else if 97 <= b <= 102 {
        Some((b - 87) as nat)
    } else if 65 <= b <= 70 {
        Some((b - 55) as nat)
    } else {
        None
    }
}

/// The number that two characters stand for: two digits, or a plus sign and a
/// digit.
pub open spec fn pair_value(a: u8, b: u8) -> Option<nat> {
    match (hex_digit(a), hex_digit(b)) {
        (Some(x), Some(y)) => Some(16 * x + y),
        (None, Some(y)) => if a == 43 {
            Some(y)
        } else {
            None
        },
        _ => None,
    }
}

/// What is said of two bytes that are no number. They are part of a text, so
/// where they are not one themselves, a character is cut in two.
pub open spec fn pair_error(a: u8, b: u8) -> Seq<char> {
    if 128 <= a < 192 {
        "invalid utf-8 sequence of 1 bytes from index 0"@
    } else if a >= 224 {
        "incomplete utf-8 byte sequence from index 0"@
    } else if a < 128 && b >= 192 {
        "incomplete utf-8 byte sequence from index 1"@
    } else {
        "invalid digit found in string"@
    }
}

/// The identifier that pairs of bytes stand for, or what is said of the first
/// that is no number.
pub open spec fn pairs_outcome(s: Seq<u8>, n: nat) -> Result<Seq<u8>, Seq<char>>
    decreases n,
{
    if n == 0 {
        Ok(Seq::empty())
    } else {
        let a = s[2 * n - 2];
        let b = s[2 * n - 1];
        match pairs_outcome(s, (n - 1) as nat) {
            Err(e) => Err(e),
            Ok(bytes) => match pair_value(a, b) {
                Some(v) => Ok(bytes.push(v as u8)),
                None => Err(pair_error(a, b)),
            },
        }
    }
}

/// The identifier that a text stands for.
pub open spec fn uuid_outcome(s: Seq<u8>) -> Result<Seq<u8>, Seq<char>> {
    if s.len() != 32 {
        Err("Invalid UUID hex string length"@)
    } else {
        pairs_outcome(s, 16)
    }
}

fn hex_text(d: u8) -> (s: &'static str)
    requires
        d < 16,
    ensures
        s@ == seq![hex_char(d as nat)],
{
    proof {
        reveal_strlit("0");
        reveal_strlit("1");
        reveal_strlit("2");
        reveal_strlit("3");
        reveal_strlit("4");
        reveal_strlit("5");
        reveal_strlit("6");
        reveal_strlit("7");
        reveal_strlit("8");
        reveal_strlit("9");
        reveal_strlit("a");
        reveal_strlit("b");
        reveal_strlit("c");
        reveal_strlit("d");
        reveal_strlit("e");
        reveal_strlit("f");
    }
    let s = match d {
        0 => "0",
        1 => "1",
        2 => "2",
        3 => "3",
        4 => "4",
        5 => "5",
        6 => "6",
        7 => "7",
        8 => "8",
        9 => "9",
        10 => "a",
        11 => "b",
        12 => "c",
        13 => "d",
        14 => "e",
        _ => "f",
    };
    assert(s@ =~= seq![hex_char(d as nat)]);
    s
}

/// An identifier in hexadecimal notation.
pub fn uuid_to_hex(bytes: &EntityId) -> (s: String)
    ensures
        s@ == hex_of(bytes@),
{
    let mut s: String = String::new();
    let mut i: usize = 0;
    assert(bytes@.take(0) =~= Seq::<u8>::empty());
    while i < 16
        invariant
            i <= 16,
            s@ == hex_of(bytes@.take(i as int)),
        decreases 16 - i,
    {
        proof {
            assert(bytes@.take(i + 1).drop_last() =~= bytes@.take(i as int));
            assert(bytes@.take(i + 1).last() == bytes@[i as int]);
        }
        let ghost before = s@;
        s.append(hex_text(bytes[i] / 16));
        s.append(hex_text(bytes[i] % 16));
        assert(s@ =~= before.push(hex_char(bytes@[i as int] as nat / 16)).push(
            hex_char(bytes@[i as int] as nat % 16),
        ));
        i = i + 1;
    }
    assert(bytes@.take(16) =~= bytes@);
    s
}

fn hex_digit_of(b: u8) -> (r: Option<u8>)
    ensures
        match r {
            Some(d) => hex_digit(b) == Some(d as nat) && d < 16,
            None => hex_digit(b) is None,
        },
{
    if 48 <= b && b <= 57 {
        Some(b - 48)
    } else if 97 <= b && b <= 102 {
        Some(b - 87)
    } else if 65 <= b && b <= 70 {
        Some(b - 55)
    } else {
        None
    }
}

fn pair_of(a: u8, b: u8) -> (r: Result<u8, String>)
    ensures
        match r {
            Ok(v) => pair_value(a, b) == Some(v as nat),
            Err(e) => pair_value(a, b) is None && e@ == pair_error(a, b),
        },
{
    match (hex_digit_of(a), hex_digit_of(b)) {
        (Some(x), Some(y)) => {
            return Ok(16 * x + y);
        },
        (None, Some(y)) => {
            if a == 43 {
                return Ok(y);
            }
        },
        _ => {},
    }
    if 128 <= a && a < 192 {
        Err("invalid utf-8 sequence of 1 bytes from index 0".to_owned())
    } else if a >= 224 {
        Err("incomplete utf-8 byte sequence from index 0".to_owned())
    } else if a < 128 && b >= 192 {
        Err("incomplete utf-8 byte sequence from index 1".to_owned())
    } else {
        Err("invalid digit found in string".to_owned())
    }
}

proof fn lemma_pairs_fail(s: Seq<u8>, n: nat, m: nat)
    requires
        n <= m,
        pairs_outcome(s, n) is Err,
    ensures
        pairs_outcome(s, m) == pairs_outcome(s, n),
    decreases m,
{
    if n < m {
        lemma_pairs_fail(s, n, (m - 1) as nat);
    }
}

/// The identifier that a text stands for.
pub fn hex_to_uuid(hex: &str) -> (r: Result<EntityId, String>)
    ensures
        match r {
            Ok(id) => uuid_outcome(encode_utf8(hex@)) == Ok::<Seq<u8>, Seq<char>>(id@),
            Err(e) => uuid_outcome(encode_utf8(hex@)) == Err::<Seq<u8>, Seq<char>>(e@),
        },
{
    let s: &[u8] = hex.as_bytes();
    if s.len() != 32 {
        return Err("Invalid UUID hex string length".to_owned());
    }
    let mut id: EntityId = [0u8; 16];
    let mut i: usize = 0;
    assert(id@.take(0) =~= Seq::<u8>::empty());
    while i < 16
        invariant
            i <= 16,
            s@ == encode_utf8(hex@),
            s@.len() == 32,
            pairs_outcome(s@, i as nat) == Ok::<Seq<u8>, Seq<char>>(id@.take(i as int)),
        decreases 16 - i,
    {
        let ghost before = id@;
        match pair_of(s[2 * i], s[2 * i + 1]) {
            Ok(v) => {
                id[i] = v;
                assert(id@.take(i + 1) =~= before.take(i as int).push(v));
            },
            Err(e) => {
                proof {
                    lemma_pairs_fail(s@, (i + 1) as nat, 16);
                }
                return Err(e);
            },
        }
        i = i + 1;
    }
    assert(id@.take(16) =~= id@);
    Ok(id)
}

proof fn lemma_hex_char(d: nat)
    requires
        d < 16,
    ensures
        hex_char(d) as u32 <= 127,
        hex_digit(hex_char(d) as u8) == Some(d),
{
}

proof fn lemma_hex_text(bytes: Seq<u8>)
    ensures
        hex_of(bytes).len() == 2 * bytes.len(),
        is_ascii_chars(hex_of(bytes)),
        forall|i: int|
            0 <= i < bytes.len() ==> hex_of(bytes)[2 * i] == hex_char(
                #[trigger] bytes[i] as nat / 16,
            ) && hex_of(bytes)[2 * i + 1] == hex_char(bytes[i] as nat % 16),
    decreases bytes.len(),
{
    if bytes.len() > 0 {
        let init = bytes.drop_last();
        lemma_hex_text(init);
        lemma_hex_char(bytes.last() as nat / 16);
        lemma_hex_char(bytes.last() as nat % 16);
        let t = hex_of(bytes);
        assert forall|i: int| 0 <= i < bytes.len() implies t[2 * i] == hex_char(
            #[trigger] bytes[i] as nat / 16,
        ) && t[2 * i + 1] == hex_char(bytes[i] as nat % 16) by {
            if i < init.len() {
                assert(init[i] == bytes[i]);
            }
        }
    }
}

/// An identifier can be read back from its notation.
pub proof fn law_hex_round_trip(id: Seq<u8>)
    requires
        id.len() == 16,
    ensures
        uuid_outcome(encode_utf8(hex_of(id))) == Ok::<Seq<u8>, Seq<char>>(id),
{
    lemma_hex_text(id);
    let chars = hex_of(id);
    is_ascii_chars_encode_utf8(chars);
    let s = encode_utf8(chars);
    assert forall|i: int| 0 <= i < 16 implies pair_value(s[2 * i], s[2 * i + 1]) == Some(
        #[trigger] id[i] as nat,
    ) by {
        lemma_hex_char(id[i] as nat / 16);
        lemma_hex_char(id[i] as nat % 16);
        assert(s[2 * i] == chars[2 * i] as u8);
        assert(s[2 * i + 1] == chars[2 * i + 1] as u8);
    }
    lemma_pairs_give(s, id, 16);
    assert(id.take(16) =~= id);
}

proof fn lemma_pairs_give(s: Seq<u8>, id: Seq<u8>, n: nat)
    requires
        n <= 16,
        id.len() == 16,
        forall|i: int|
            0 <= i < 16 ==> pair_value(s[2 * i], s[2 * i + 1]) == Some(#[trigger] id[i] as nat),
    ensures
        pairs_outcome(s, n) == Ok::<Seq<u8>, Seq<char>>(id.take(n as int)),
    decreases n,
{
    if n > 0 {
        lemma_pairs_give(s, id, (n - 1) as nat);
        assert(pair_value(s[2 * (n - 1)], s[2 * (n - 1) + 1]) == Some(id[n - 1] as nat));
        assert(id.take(n as int) =~= id.take(n - 1).push(id[n - 1]));
    } else {
        assert(id.take(0) =~= Seq::<u8>::empty());
    }
}

/// Different identifiers have different notations.
pub proof fn law_hex_injective(a: Seq<u8>, b: Seq<u8>)
    requires
        a.len() == 16,
        b.len() == 16,
        hex_of(a) == hex_of(b),
    ensures
        a == b,
{
    law_hex_round_trip(a);
    law_hex_round_trip(b);
}

} // verus!
