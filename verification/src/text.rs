//! Character-level helpers shared by the store and the conversion engine:
//! canonical uppercase form of currency codes and a lexicographic order on
//! character sequences, used to keep the store's listings sorted.

use vstd::prelude::*;

verus! {

/// Uppercase a single ASCII letter; leave every other character alone.
pub open spec fn upper_char(c: char) -> char {
    if 'a' <= c && c <= 'z' {
        ((c as u32) - 32) as char
    } else {
        c
    }
}

/// The canonical form of a currency code: ASCII letters uppercased.
/// A code that is not pure ASCII is left exactly as it came.
pub open spec fn canon_seq(s: Seq<char>) -> Seq<char> {
    if vstd::utf8::is_ascii_chars(s) {
        Seq::new(s.len(), |i: int| upper_char(s[i]))
    } else {
        s
    }
}

/// Strict lexicographic order on character sequences, by code point.
pub open spec fn seq_lt(a: Seq<char>, b: Seq<char>) -> bool
    decreases a.len(),
{
    if b.len() == 0 {
        false
    } else if a.len() == 0 {
        true
    } else if a[0] != b[0] {
        (a[0] as u32) < (b[0] as u32)
    } else {
        seq_lt(a.skip(1), b.skip(1))
    }
}

/// Distinct characters have distinct code points.
proof fn lemma_char_codepoint_injective(x: char, y: char)
    requires
        x != y,
    ensures
        x as u32 != y as u32,
{
}

/// Exactly one of `seq_lt(a, b)`, `seq_lt(b, a)`, `a == b` holds.
pub proof fn lemma_seq_lt_trichotomy(a: Seq<char>, b: Seq<char>)
    ensures
        seq_lt(a, b) || seq_lt(b, a) || a =~= b,
        seq_lt(a, b) ==> !seq_lt(b, a) && !(a =~= b),
        seq_lt(b, a) ==> !seq_lt(a, b) && !(a =~= b),
    decreases a.len(),
{
    if a.len() == 0 || b.len() == 0 {
    } else if a[0] != b[0] {
        assert(a[0] as u32 != b[0] as u32) by {
            lemma_char_codepoint_injective(a[0], b[0]);
        }
        assert(!(a =~= b));
    } else {
        lemma_seq_lt_trichotomy(a.skip(1), b.skip(1));
        if a.skip(1) =~= b.skip(1) {
            assert(a =~= b) by {
                assert(a.len() == b.len());
                assert forall|i: int| 0 <= i < a.len() implies a[i] == b[i] by {
                    if i > 0 {
                        assert(a.skip(1)[i - 1] == a[i]);
                        assert(b.skip(1)[i - 1] == b[i]);
                    }
                }
            }
        } else {
            assert(!(a =~= b)) by {
                if a =~= b {
                    assert forall|i: int| 0 <= i < a.skip(1).len() implies a.skip(1)[i]
                        == b.skip(1)[i] by {
                        assert(a.skip(1)[i] == a[i + 1]);
                        assert(b.skip(1)[i] == b[i + 1]);
                    }
                    assert(a.skip(1) =~= b.skip(1));
                }
            }
        }
    }
}

pub proof fn lemma_seq_lt_trans(a: Seq<char>, b: Seq<char>, c: Seq<char>)
    requires
        seq_lt(a, b),
        seq_lt(b, c),
    ensures
        seq_lt(a, c),
    decreases a.len(),
{
    if b.len() == 0 || c.len() == 0 {
    } else if a.len() == 0 {
    } else {
        if a[0] == b[0] && b[0] == c[0] {
            lemma_seq_lt_trans(a.skip(1), b.skip(1), c.skip(1));
        }
    }
}

/// Compare two strings in the `seq_lt` order.
pub fn str_lt(a: &str, b: &str) -> (r: bool)
    ensures
        r == seq_lt(a@, b@),
{
    let a_len = a.unicode_len();
    let b_len = b.unicode_len();
    let mut i: usize = 0;
    proof {
        assert(a@.skip(0) =~= a@);
        assert(b@.skip(0) =~= b@);
    }
    loop
        invariant
            i <= a_len,
            i <= b_len,
            a_len == a@.len(),
            b_len == b@.len(),
            forall|j: int| 0 <= j < i ==> a@[j] == b@[j],
            seq_lt(a@, b@) == seq_lt(a@.skip(i as int), b@.skip(i as int)),
        decreases a_len - i,
    {
        if i == b_len {
            proof {
                assert(b@.skip(i as int).len() == 0);
            }
            return false;
        }
        if i == a_len {
            proof {
                assert(a@.skip(i as int).len() == 0);
                assert(b@.skip(i as int).len() > 0);
            }
            return true;
        }
        let ca = a.get_char(i);
        let cb = b.get_char(i);
        proof {
            let sa = a@.skip(i as int);
            let sb = b@.skip(i as int);
            assert(sa[0] == a@[i as int]);
            assert(sb[0] == b@[i as int]);
            assert(sa.skip(1) =~= a@.skip(i + 1));
            assert(sb.skip(1) =~= b@.skip(i + 1));
        }
        if ca != cb {
            return (ca as u32) < (cb as u32);
        }
        i = i + 1;
    }
}

/// Uppercase one ASCII lowercase letter, as a one-character string.
fn upper_letter(b: u8) -> (r: &'static str)
    requires
        97 <= b <= 122,
    ensures
        r@.len() == 1,
        r@[0] == (((b as u32) - 32) as char),
{
    let r: &'static str = match b {
        97 => "A",
        98 => "B",
        99 => "C",
        100 => "D",
        101 => "E",
        102 => "F",
        103 => "G",
        104 => "H",
        105 => "I",
        106 => "J",
        107 => "K",
        108 => "L",
        109 => "M",
        110 => "N",
        111 => "O",
        112 => "P",
        113 => "Q",
        114 => "R",
        115 => "S",
        116 => "T",
        117 => "U",
        118 => "V",
        119 => "W",
        120 => "X",
        121 => "Y",
        _ => "Z",
    };
    proof {
        reveal_strlit("A");
        reveal_strlit("B");
        reveal_strlit("C");
        reveal_strlit("D");
        reveal_strlit("E");
        reveal_strlit("F");
        reveal_strlit("G");
        reveal_strlit("H");
        reveal_strlit("I");
        reveal_strlit("J");
        reveal_strlit("K");
        reveal_strlit("L");
        reveal_strlit("M");
        reveal_strlit("N");
        reveal_strlit("O");
        reveal_strlit("P");
        reveal_strlit("Q");
        reveal_strlit("R");
        reveal_strlit("S");
        reveal_strlit("T");
        reveal_strlit("U");
        reveal_strlit("V");
        reveal_strlit("W");
        reveal_strlit("X");
        reveal_strlit("Y");
        reveal_strlit("Z");
    }
    r
}

/// Canonicalize a currency code: uppercase its ASCII letters.
pub fn canon(s: &String) -> (r: String)
    ensures
        r@ == canon_seq(s@),
{
    if !s.is_ascii() {
        return s.clone();
    }
    let slice = s.as_str();
    let n = slice.unicode_len();
    let mut r = String::new();
    let mut i: usize = 0;
    while i < n
        invariant
            i <= n,
            n == slice@.len(),
            slice@ == s@,
            slice.is_ascii(),
            vstd::utf8::is_ascii_chars(s@),
            r@ =~= Seq::new(i as nat, |j: int| upper_char(s@[j])),
        decreases n - i,
    {
        let b = slice.get_ascii(i);
        proof {
            assert(s@[i as int] as u8 == b);
            assert(vstd::utf8::is_ascii_chars(s@));
            assert('\0' <= s@[i as int] <= '\u{7f}');
        }
        if 97 <= b && b <= 122 {
            let up = upper_letter(b);
            proof {
                let c = s@[i as int];
                assert(c as u32 == b as u32);
                assert('a' <= c && c <= 'z');
                assert(up@[0] == upper_char(c));
            }
            r.append(up);
        } else {
            let one = slice.substring_ascii(i, i + 1);
            proof {
                let c = s@[i as int];
                assert(one@ =~= seq![c]);
                assert(!('a' <= c && c <= 'z')) by {
                    assert(c as u32 == b as u32);
                }
                assert(upper_char(c) == c);
            }
            r.append(one);
        }
        i = i + 1;
    }
    proof {
        assert(r@ =~= canon_seq(s@));
    }
    r
}

} // verus!

