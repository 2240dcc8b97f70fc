//! Bytes in base64 notation.

use vstd::prelude::*;
use vstd::string::{StrSliceExecFns, StringExecFns};


verus! {

/// The characters of the notation, each in the place of the number that it
/// stands for.
pub open spec fn alphabet() -> Seq<char> {
    "ABCDEFGHIJKLMNOPQRSTUVWXYZabcdefghijklmnopqrstuvwxyz0123456789+/"@
}

/// The notation of up to three bytes. What they fall short of three is filled up.
pub open spec fn group(s: Seq<u8>) -> Seq<char> {
    let a = s[0] as int;
    let b = if s.len() > 1 {
        s[1] as int
    } else {
        0
    };
    let c = if s.len() > 2 {
        s[2] as int
    } else {
        0
    };
    seq![
        alphabet()[a / 4],
        alphabet()[(a % 4) * 16 + b / 16],
        if s.len() > 1 {
            alphabet()[(b % 16) * 4 + c / 64]
        } else {
            '='
        },
        if s.len() > 2 {
            alphabet()[c % 64]
        } else {
            '='
        },
    ]
}

/// Bytes in base64 notation.
pub open spec fn base64_of(s: Seq<u8>) -> Seq<char>
    decreases s.len(),
{
    if s.len() == 0 {
        Seq::empty()
    } else if s.len() <= 3 {
        group(s)
    } else {
        group(s.take(3)) + base64_of(s.skip(3))
    }
}

fn letter(d: u8) -> (s: &'static str)
    requires
        d < 64,
    ensures
        s@ == seq![alphabet()[d as int]],
{
    proof {
        reveal_strlit("ABCDEFGHIJKLMNOPQRSTUVWXYZabcdefghijklmnopqrstuvwxyz0123456789+/");
    }
    let all: &'static str = "ABCDEFGHIJKLMNOPQRSTUVWXYZabcdefghijklmnopqrstuvwxyz0123456789+/";
    let s = all.substring_char(d as usize, d as usize + 1);
    assert(s@ =~= seq![alphabet()[d as int]]);
    s
}

fn push_group(out: &mut String, s: &[u8], start: usize)
    requires
        start < s@.len(),
    ensures
        final(out)@ == old(out)@ + group(
            s@.subrange(
                start as int,
                if start + 3 <= s@.len() {
                    start + 3
                } else {
                    s@.len() as int
                },
            ),
        ),
{
    let left: usize = s.len() - start;
    let a: u8 = s[start];
    let b: u8 = if left > 1 {
        s[start + 1]
    } else {
        0
    };
    let c: u8 = if left > 2 {
        s[start + 2]
    } else {
        0
    };
    proof {
        reveal_strlit("=");
    }
    out.append(letter(a / 4));
    out.append(letter((a % 4) * 16 + b / 16));
    if left > 1 {
        out.append(letter((b % 16) * 4 + c / 64));
    } else {
        out.append("=");
    }
    if left > 2 {
        out.append(letter(c % 64));
    } else {
        out.append("=");
    }
    assert(out@ =~= old(out)@ + group(
        s@.subrange(
            start as int,
            if start + 3 <= s@.len() {
                start + 3
            } else {
                s@.len() as int
            },
        ),
    ));
}

/// Writes bytes in base64 notation.
pub fn base64_encode(data: &[u8]) -> (r: String)
    ensures
        r@ == base64_of(data@),
{
    let mut out: String = String::new();
    let total: usize = data.len();
    let mut i: usize = 0;
    assert(data@.skip(0) =~= data@);
    assert(out@ + base64_of(data@.skip(0)) =~= base64_of(data@));
    while i < total
        invariant
            i <= total == data@.len(),
            out@ + base64_of(data@.skip(i as int)) == base64_of(data@),
        decreases total - i,
    {
        let ghost before = out@;
        let ghost rest = data@.skip(i as int);
        push_group(&mut out, data, i);
        if total - i <= 3 {
            proof {
                assert(data@.subrange(i as int, total as int) =~= rest);
                assert(data@.skip(total as int) =~= Seq::<u8>::empty());
                assert(out@ + base64_of(data@.skip(total as int)) =~= before + base64_of(rest));
            }
            i = total;
        } else {
            proof {
                assert(data@.subrange(i as int, i + 3) =~= rest.take(3));
                assert(rest.skip(3) =~= data@.skip(i + 3));
                assert(out@ + base64_of(data@.skip(i + 3)) =~= before + base64_of(rest));
            }
            i = i + 3;
        }
    }
    assert(data@.skip(total as int) =~= Seq::<u8>::empty());
    assert(out@ + base64_of(data@.skip(total as int)) =~= out@);
    out
}

/// The number that a character stands for.
pub open spec fn rank(c: char) -> int {
    let n = c as int;
    if 65 <= n <= 90 {
        n - 65
    } else if 97 <= n <= 122 {
        n - 71
    } else if 48 <= n <= 57 {
        n + 4
    } else if n == 43 {
        62
    } else {
        63
    }
}

proof fn lemma_rank(d: int)
    requires
        0 <= d < 64,
    ensures
        rank(alphabet()[d]) == d,
        alphabet()[d] != '=',
{
    reveal_strlit("ABCDEFGHIJKLMNOPQRSTUVWXYZabcdefghijklmnopqrstuvwxyz0123456789+/");
    let t = alphabet();
    assert(t[0] == 'A' && t[1] == 'B' && t[2] == 'C' && t[3] == 'D' && t[4] == 'E');
    assert(t[5] == 'F' && t[6] == 'G' && t[7] == 'H' && t[8] == 'I' && t[9] == 'J');
    assert(t[10] == 'K' && t[11] == 'L' && t[12] == 'M' && t[13] == 'N' && t[14] == 'O');
    assert(t[15] == 'P' && t[16] == 'Q' && t[17] == 'R' && t[18] == 'S' && t[19] == 'T');
    assert(t[20] == 'U' && t[21] == 'V' && t[22] == 'W' && t[23] == 'X' && t[24] == 'Y');
    assert(t[25] == 'Z' && t[26] == 'a' && t[27] == 'b' && t[28] == 'c' && t[29] == 'd');
    assert(t[30] == 'e' && t[31] == 'f' && t[32] == 'g' && t[33] == 'h' && t[34] == 'i');
    assert(t[35] == 'j' && t[36] == 'k' && t[37] == 'l' && t[38] == 'm' && t[39] == 'n');
    assert(t[40] == 'o' && t[41] == 'p' && t[42] == 'q' && t[43] == 'r' && t[44] == 's');
    assert(t[45] == 't' && t[46] == 'u' && t[47] == 'v' && t[48] == 'w' && t[49] == 'x');
    assert(t[50] == 'y' && t[51] == 'z' && t[52] == '0' && t[53] == '1' && t[54] == '2');
    assert(t[55] == '3' && t[56] == '4' && t[57] == '5' && t[58] == '6' && t[59] == '7');
    assert(t[60] == '8' && t[61] == '9' && t[62] == '+' && t[63] == '/');
}

/// The bytes that a group of four characters stands for.
pub open spec fn group_bytes(t: Seq<char>) -> Seq<u8> {
    let (a, b, c, d) = (rank(t[0]), rank(t[1]), rank(t[2]), rank(t[3]));
    let first = (a * 4 + b / 16) as u8;
    let second = ((b % 16) * 16 + c / 4) as u8;
    let third = ((c % 4) * 64 + d) as u8;
    if t[2] == '=' {
        seq![first]
    } else if t[3] == '=' {
        seq![first, second]
    } else {
        seq![first, second, third]
    }
}

/// The bytes that a text in base64 notation stands for.
pub open spec fn base64_bytes(t: Seq<char>) -> Seq<u8>
    decreases t.len(),
{
    if t.len() < 4 {
        Seq::empty()
    } else {
        group_bytes(t.take(4)) + base64_bytes(t.skip(4))
    }
}

proof fn lemma_group(s: Seq<u8>)
    requires
        1 <= s.len() <= 3,
    ensures
        group_bytes(group(s)) == s,
{
    let a = s[0] as int;
    let b = if s.len() > 1 {
        s[1] as int
    } else {
        0
    };
    let c = if s.len() > 2 {
        s[2] as int
    } else {
        0
    };
    lemma_rank(a / 4);
    lemma_rank((a % 4) * 16 + b / 16);
    lemma_rank((b % 16) * 4 + c / 64);
    lemma_rank(c % 64);
    assert(group_bytes(group(s)) =~= s);
}

/// The notation has four characters for every three bytes or part of them.
pub proof fn law_base64_length(s: Seq<u8>)
    ensures
        base64_of(s).len() == 4 * ((s.len() + 2) / 3),
    decreases s.len(),
{
    if s.len() > 3 {
        law_base64_length(s.skip(3));
    }
}

/// How many characters only fill up the notation of so many bytes.
pub open spec fn padding(n: nat) -> nat {
    if n % 3 == 0 {
        0
    } else {
        (3 - n % 3) as nat
    }
}

/// The notation is filled up at its end and nowhere else.
pub proof fn law_base64_padding(s: Seq<u8>, i: int)
    requires
        0 <= i < base64_of(s).len(),
    ensures
        base64_of(s)[i] == '=' <==> i >= base64_of(s).len() - padding(s.len()),
    decreases s.len(),
{
    let g = if s.len() <= 3 {
        s
    } else {
        s.take(3)
    };
    let a = g[0] as int;
    let b = if g.len() > 1 {
        g[1] as int
    } else {
        0
    };
    let c = if g.len() > 2 {
        g[2] as int
    } else {
        0
    };
    lemma_rank(a / 4);
    lemma_rank((a % 4) * 16 + b / 16);
    lemma_rank((b % 16) * 4 + c / 64);
    lemma_rank(c % 64);
    if s.len() > 3 {
        law_base64_length(s.skip(3));
        if i >= 4 {
            law_base64_padding(s.skip(3), i - 4);
        }
    }
}

/// The notation of bytes stands for those bytes.
pub proof fn law_base64_decodes(s: Seq<u8>)
    ensures
        base64_bytes(base64_of(s)) == s,
    decreases s.len(),
{
    if s.len() == 0 {
        assert(s =~= Seq::<u8>::empty());
    } else {
        let t = base64_of(s);
        let g = if s.len() <= 3 {
            s
        } else {
            s.take(3)
        };
        let rest = if s.len() <= 3 {
            Seq::<u8>::empty()
        } else {
            s.skip(3)
        };
        lemma_group(g);
        law_base64_decodes(rest);
        assert(t.take(4) =~= group(g));
        assert(t.skip(4) =~= base64_of(rest));
        assert(g + rest =~= s);
    }
}

/// Different bytes have different notations.
pub proof fn law_base64_injective(s: Seq<u8>, t: Seq<u8>)
    ensures
        base64_of(s) == base64_of(t) ==> s == t,
{
    law_base64_decodes(s);
    law_base64_decodes(t);
}

/// Bytes can be written part by part, where no part has to be filled up.
pub proof fn law_base64_joins(s: Seq<u8>, t: Seq<u8>)
    requires
        s.len() % 3 == 0,
    ensures
        base64_of(s + t) == base64_of(s) + base64_of(t),
    decreases s.len(),
{
    if s.len() == 0 {
        assert(s + t =~= t);
        assert(base64_of(s) + base64_of(t) =~= base64_of(t));
    } else if t.len() == 0 {
        assert(s + t =~= s);
        assert(base64_of(s) + base64_of(t) =~= base64_of(s));
    } else {
        let rest = s.skip(3);
        law_base64_joins(rest, t);
        assert((s + t).take(3) =~= s.take(3));
        assert((s + t).skip(3) =~= rest + t);
        if s.len() == 3 {
            assert(s.take(3) =~= s);
            assert(rest + t =~= t);
        } else {
            assert(base64_of(s) + base64_of(t) =~= group(s.take(3)) + (base64_of(rest)
                + base64_of(t)));
        }
    }
}

} // verus!
