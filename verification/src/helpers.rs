use vstd::prelude::*;

verus! {

// Character classes the assembler's grammar is built from. All classification
// is over ASCII: a character outside these classes never matches a mnemonic,
// a digit or a register letter, and so falls through to the grammar's
// defaults.
pub open spec fn is_ascii_lower(c: char) -> bool {
    97 <= c as u32 <= 122
}

pub open spec fn is_ascii_upper(c: char) -> bool {
    65 <= c as u32 <= 90
}

pub open spec fn is_ascii_letter(c: char) -> bool {
    is_ascii_lower(c) || is_ascii_upper(c)
}

pub open spec fn is_digit_char(c: char) -> bool {
    48 <= c as u32 <= 57
}

/// The register index a letter names: `a` is 0 through `z` is 25, either
/// case.
pub open spec fn letter_index(c: char) -> int {
    if is_ascii_lower(c) {
        c as u32 - 97
    } else {
        c as u32 - 65
    }
}

/// Token-separating blank space inside one line.
pub open spec fn is_space_char(c: char) -> bool {
    c == ' ' || c == '\t' || c == '\r'
}

/// What ends a token: blank space, or the comma between two operands.
pub open spec fn is_separator(c: char) -> bool {
    is_space_char(c) || c == ','
}

/// Relies on std's `String::push`: appends exactly the one character to the
/// end of the string.
#[verifier::external_body]
pub fn push_char(s: &mut String, c: char)
    ensures
        final(s)@ == old(s)@.push(c),
{
    s.push(c);
}

/// The characters of a string slice, materialized for constant-time access.
pub fn chars_of(s: &str) -> (v: Vec<char>)
    ensures
        v@ == s@,
{
    let n = s.unicode_len();
    let mut v: Vec<char> = Vec::new();
    let mut i: usize = 0;
    while i < n
        invariant
            i <= n,
            n == s@.len(),
            v@ =~= s@.subrange(0, i as int),
        decreases n - i,
    {
        v.push(s.get_char(i));
        i = i + 1;
    }
    proof {
        assert(v@ =~= s@);
    }
    v
}

/// A string holding exactly the characters `cs[from..to]`.
pub fn string_from_range(cs: &Vec<char>, from: usize, to: usize) -> (s: String)
    requires
        from <= to <= cs@.len(),
    ensures
        s@ == cs@.subrange(from as int, to as int),
{
    let mut s = String::new();
    let mut i: usize = from;
    while i < to
        invariant
            from <= i <= to <= cs@.len(),
            s@ =~= cs@.subrange(from as int, i as int),
        decreases to - i,
    {
        push_char(&mut s, cs[i]);
        proof {
            assert(cs@.subrange(from as int, i as int).push(cs@[i as int]) =~= cs@.subrange(
                from as int,
                i + 1 as int,
            ));
        }
        i = i + 1;
    }
    s
}

/// The register index a letter names, or nothing for a character that is no
/// ASCII letter.
pub fn letter_to_integer(letter: char) -> (r: Option<u8>)
    ensures
        is_ascii_letter(letter) ==> r == Some(letter_index(letter) as u8),
        !is_ascii_letter(letter) ==> r is None,
{
    let u = letter as u32;
    if 97 <= u && u <= 122 {
        Some((u - 97) as u8)
    } else if 65 <= u && u <= 90 {
        Some((u - 65) as u8)
    } else {
        None
    }
}

/// The lower-case letter naming a register index: 0 is `a` through 25 is
/// `z`.
pub fn integer_to_letter(n: usize) -> (c: char)
    requires
        n < 26,
    ensures
        c as u32 == 97 + n,
        is_ascii_lower(c),
{
    match n {
        0 => 'a',
        1 => 'b',
        2 => 'c',
        3 => 'd',
        4 => 'e',
        5 => 'f',
        6 => 'g',
        7 => 'h',
        8 => 'i',
        9 => 'j',
        10 => 'k',
        11 => 'l',
        12 => 'm',
        13 => 'n',
        14 => 'o',
        15 => 'p',
        16 => 'q',
        17 => 'r',
        18 => 's',
        19 => 't',
        20 => 'u',
        21 => 'v',
        22 => 'w',
        23 => 'x',
        24 => 'y',
        _ => 'z',
    }
}

/// Whether the string is exactly one ASCII letter.
pub fn has_single_letter(s: &str) -> (r: bool)
    ensures
        r == (s@.len() == 1 && is_ascii_letter(s@[0])),
{
    let n = s.unicode_len();
    if n == 1 {
        letter_to_integer(s.get_char(0)).is_some()
    } else {
        false
    }
}

/// A binary-literal marker: some `b` or `B` in the token is immediately
/// followed by a digit.
pub open spec fn has_b_num(t: Seq<char>) -> bool {
    exists|i: int|
        0 <= i && i + 1 < t.len() && (#[trigger] t[i] == 'b' || t[i] == 'B') && is_digit_char(
            t[i + 1],
        )
}

/// Whether some `b` or `B` in the string is immediately followed by a digit.
pub fn has_b_with_num(s: &str) -> (r: bool)
    ensures
        r == has_b_num(s@),
{
    let cs = chars_of(s);
    let n = cs.len();
    let mut i: usize = 0;
    if n == 0 {
        return false;
    }
    while i < n - 1
        invariant
            cs@ == s@,
            n == cs@.len(),
            1 <= n,
            i <= n,
            forall|j: int|
                0 <= j && j + 1 < i + 1 && j + 1 < n ==> !((#[trigger] cs@[j] == 'b' || cs@[j]
                    == 'B') && is_digit_char(cs@[j + 1])),
        decreases n - i,
    {
        let c = cs[i];
        let d = cs[i + 1];
        let du = d as u32;
        if (c == 'b' || c == 'B') && 48 <= du && du <= 57 {
            return true;
        }
        i = i + 1;
    }
    false
}

/// The string with its last character removed when that character is an
/// ASCII letter, and unchanged otherwise.
pub fn delete_last_letter(s: &str) -> (r: &str)
    ensures
        s@.len() > 0 && is_ascii_letter(s@.last()) ==> r@ == s@.drop_last(),
        !(s@.len() > 0 && is_ascii_letter(s@.last())) ==> r@ == s@,
{
    let n = s.unicode_len();
    if n > 0 {
        let c = s.get_char(n - 1);
        let u = c as u32;
        if (97 <= u && u <= 122) || (65 <= u && u <= 90) {
            let r = s.substring_char(0, n - 1);
            proof {
                assert(r@ =~= s@.drop_last());
            }
            return r;
        }
    }
    s
}


/// Whether the character separates tokens.
pub fn separator_char(c: char) -> (r: bool)
    ensures
        r == is_separator(c),
{
    c == ' ' || c == '\t' || c == '\r' || c == ','
}

/// The characters `cs[from..to]`, copied out.
pub fn vec_from_range(cs: &Vec<char>, from: usize, to: usize) -> (v: Vec<char>)
    requires
        from <= to <= cs@.len(),
    ensures
        v@ == cs@.subrange(from as int, to as int),
{
    let mut v: Vec<char> = Vec::new();
    let mut i: usize = from;
    while i < to
        invariant
            from <= i <= to <= cs@.len(),
            v@ =~= cs@.subrange(from as int, i as int),
        decreases to - i,
    {
        v.push(cs[i]);
        proof {
            assert(cs@.subrange(from as int, i as int).push(cs@[i as int]) =~= cs@.subrange(
                from as int,
                i + 1 as int,
            ));
        }
        i = i + 1;
    }
    v
}


/// Whether two strings hold the same characters.
pub fn str_eq(a: &str, b: &str) -> (r: bool)
    ensures
        r == (a@ == b@),
{
    let an = a.unicode_len();
    let bn = b.unicode_len();
    if an != bn {
        proof {
            assert(a@ != b@);
        }
        return false;
    }
    let mut i: usize = 0;
    while i < an
        invariant
            i <= an,
            an == a@.len(),
            an == b@.len(),
            forall|j: int| 0 <= j < i ==> a@[j] == b@[j],
        decreases an - i,
    {
        if a.get_char(i) != b.get_char(i) {
            return false;
        }
        i = i + 1;
    }
    proof {
        assert(a@ =~= b@);
    }
    true
}

} // verus!
