use vstd::prelude::*;

use crate::helpers::{
    chars_of, has_b_num, has_b_with_num, is_ascii_letter, is_ascii_lower, is_digit_char,
    is_separator, is_space_char, letter_index, letter_to_integer, push_char, separator_char,
    str_eq, string_from_range, vec_from_range,
};
use crate::instructions::Instruction;

verus! {

/// The first position at or after `i` holding the character `c`, or the
/// length when no position does.
pub open spec fn find_from(s: Seq<char>, c: char, i: int) -> int
    decreases s.len() - i,
    when 0 <= i <= s.len()
{
    if i >= s.len() {
        s.len() as int
    } else if s[i] == c {
        i
    } else {
        find_from(s, c, i + 1)
    }
}

/// The first position at or after `i` holding a token separator, or the
/// length when no position does.
pub open spec fn sep_from(s: Seq<char>, i: int) -> int
    decreases s.len() - i,
    when 0 <= i <= s.len()
{
    if i >= s.len() {
        s.len() as int
    } else if is_separator(s[i]) {
        i
    } else {
        sep_from(s, i + 1)
    }
}

pub proof fn lemma_find_from_bounds(s: Seq<char>, c: char, i: int)
    requires
        0 <= i <= s.len(),
    ensures
        i <= find_from(s, c, i) <= s.len(),
    decreases s.len() - i,
{
    if i < s.len() && s[i] != c {
        lemma_find_from_bounds(s, c, i + 1);
    }
}

pub proof fn lemma_sep_from_bounds(s: Seq<char>, i: int)
    requires
        0 <= i <= s.len(),
    ensures
        i <= sep_from(s, i) <= s.len(),
    decreases s.len() - i,
{
    if i < s.len() && !is_separator(s[i]) {
        lemma_sep_from_bounds(s, i + 1);
    }
}

/// A scan that saw no `c` before `k`, and `c` (or the end) at `k`, found
/// exactly `find_from`.
pub proof fn lemma_find_from_is(s: Seq<char>, c: char, i: int, k: int)
    requires
        0 <= i <= k <= s.len(),
        forall|j: int| i <= j < k ==> s[j] != c,
        k < s.len() ==> s[k] == c,
    ensures
        find_from(s, c, i) == k,
    decreases k - i,
{
    if i < k {
        lemma_find_from_is(s, c, i + 1, k);
    }
}

/// A scan that saw no separator before `k`, and a separator (or the end) at
/// `k`, found exactly `sep_from`.
pub proof fn lemma_sep_from_is(s: Seq<char>, i: int, k: int)
    requires
        0 <= i <= k <= s.len(),
        forall|j: int| i <= j < k ==> !is_separator(s[j]),
        k < s.len() ==> is_separator(s[k]),
    ensures
        sep_from(s, i) == k,
    decreases k - i,
{
    if i < k {
        lemma_sep_from_is(s, i + 1, k);
    }
}

/// The lines of the buffer from position `i` on, split at every newline;
/// a trailing newline opens no further empty line.
pub open spec fn lines_from(s: Seq<char>, i: int) -> Seq<Seq<char>>
    decreases s.len() - i,
    when 0 <= i <= s.len()
    via lines_from_dec
{
    if i >= s.len() {
        Seq::empty()
    } else {
        let e = find_from(s, '\n', i);
        if e >= s.len() {
            seq![s.subrange(i, s.len() as int)]
        } else {
            seq![s.subrange(i, e)] + lines_from(s, e + 1)
        }
    }
}

#[via_fn]
proof fn lines_from_dec(s: Seq<char>, i: int) {
    if 0 <= i < s.len() {
        lemma_find_from_bounds(s, '\n', i);
    }
}

/// The line up to its first `;`: everything from there on is comment.
pub open spec fn strip_comment(l: Seq<char>) -> Seq<char> {
    l.subrange(0, find_from(l, ';', 0))
}

/// The tokens of a line from position `i` on: maximal runs of
/// non-separator characters.
pub open spec fn tokens_from(s: Seq<char>, i: int) -> Seq<Seq<char>>
    decreases s.len() - i,
    when 0 <= i <= s.len()
    via tokens_from_dec
{
    if i >= s.len() {
        Seq::empty()
    } else if is_separator(s[i]) {
        tokens_from(s, i + 1)
    } else {
        let e = sep_from(s, i + 1);
        seq![s.subrange(i, e)] + tokens_from(s, e)
    }
}

#[via_fn]
proof fn tokens_from_dec(s: Seq<char>, i: int) {
    if 0 <= i < s.len() && !is_separator(s[i]) {
        lemma_sep_from_bounds(s, i + 1);
    }
}

/// The tokens of one source line: comment stripped, then split on blank
/// space and commas.
pub open spec fn line_tokens(l: Seq<char>) -> Seq<Seq<char>> {
    tokens_from(strip_comment(l), 0)
}

/// What lexing a whole buffer yields: for each line, its tokens.
pub open spec fn spec_lex(s: Seq<char>) -> Seq<Seq<Seq<char>>> {
    lines_from(s, 0).map_values(|l: Seq<char>| line_tokens(l))
}

/// The character sequences a token vector holds.
pub open spec fn tokens_view(ts: Seq<String>) -> Seq<Seq<char>> {
    ts.map_values(|t: String| t@)
}

/// The character sequences a lexed buffer holds, line by line.
pub open spec fn lex_view(ls: Seq<Vec<String>>) -> Seq<Seq<Seq<char>>> {
    ls.map_values(|l: Vec<String>| tokens_view(l@))
}

pub open spec fn lines_view(ls: Seq<Vec<char>>) -> Seq<Seq<char>> {
    ls.map_values(|l: Vec<char>| l@)
}

/// The first position at or after `from` holding `c`, or the length.
fn scan_char(cs: &Vec<char>, c: char, from: usize) -> (k: usize)
    requires
        from <= cs@.len(),
    ensures
        k == find_from(cs@, c, from as int),
        from <= k <= cs@.len(),
{
    let n = cs.len();
    let mut k: usize = from;
    while k < n && cs[k] != c
        invariant
            from <= k <= n,
            n == cs@.len(),
            forall|j: int| from <= j < k ==> cs@[j] != c,
        decreases n - k,
    {
        k = k + 1;
    }
    proof {
        lemma_find_from_is(cs@, c, from as int, k as int);
    }
    k
}

/// The buffer cut into lines at newlines.
fn split_lines(cs: &Vec<char>) -> (lines: Vec<Vec<char>>)
    ensures
        lines_view(lines@) == lines_from(cs@, 0),
{
    let n = cs.len();
    let mut out: Vec<Vec<char>> = Vec::new();
    let mut i: usize = 0;
    while i < n
        invariant
            i <= n,
            n == cs@.len(),
            lines_view(out@) + lines_from(cs@, i as int) =~= lines_from(cs@, 0),
        decreases n - i,
    {
        let ghost out0 = out@;
        let ghost i0 = i as int;
        let e = scan_char(cs, '\n', i);
        let line = vec_from_range(cs, i, e);
        out.push(line);
        proof {
            assert(lines_view(out@) =~= lines_view(out0).push(line@));
        }
        if e == n {
            i = n;
            proof {
                assert(lines_from(cs@, i0) =~= seq![cs@.subrange(i0, n as int)]);
                assert(lines_view(out0) + lines_from(cs@, i0) =~= lines_view(out@) + lines_from(
                    cs@,
                    n as int,
                ));
            }
        } else {
            i = e + 1;
            proof {
                assert(lines_from(cs@, i0) =~= seq![cs@.subrange(i0, e as int)] + lines_from(
                    cs@,
                    e + 1 as int,
                ));
                assert(lines_view(out0) + lines_from(cs@, i0) =~= lines_view(out@) + lines_from(
                    cs@,
                    e + 1 as int,
                ));
            }
        }
    }
    proof {
        assert(lines_view(out@) + lines_from(cs@, n as int) =~= lines_view(out@));
    }
    out
}

/// The tokens of one line: everything from the first `;` on is dropped,
/// the rest split on blank space and commas.
fn tokenize_line(line: &Vec<char>) -> (toks: Vec<String>)
    ensures
        tokens_view(toks@) == line_tokens(line@),
{
    let ce = scan_char(line, ';', 0);
    let ghost body = strip_comment(line@);
    proof {
        assert(body.len() == ce);
        assert(forall|j: int| 0 <= j < ce ==> body[j] == line@[j]);
    }
    let mut toks: Vec<String> = Vec::new();
    let mut k: usize = 0;
    while k < ce
        invariant
            ce <= line@.len(),
            body == strip_comment(line@),
            body.len() == ce,
            forall|j: int| 0 <= j < ce ==> body[j] == line@[j],
            k <= ce,
            tokens_view(toks@) + tokens_from(body, k as int) =~= tokens_from(body, 0),
        decreases ce - k,
    {
        let ghost toks0 = toks@;
        let ghost k0 = k as int;
        if separator_char(line[k]) {
            proof {
                assert(tokens_from(body, k0) =~= tokens_from(body, k0 + 1));
            }
            k = k + 1;
        } else {
            let mut j = k + 1;
            while j < ce && !separator_char(line[j])
                invariant
                    k < j <= ce,
                    ce <= line@.len(),
                    forall|m: int| k < m < j ==> !is_separator(line@[m]),
                decreases ce - j,
            {
                j = j + 1;
            }
            proof {
                assert forall|m: int| k0 + 1 <= m < j implies !is_separator(body[m]) by {
                    assert(forall|m: int| k0 < m < j ==> body[m] == line@[m]);
                }
                assert(j < ce ==> is_separator(body[j as int]));
                lemma_sep_from_is(body, k0 + 1, j as int);
                assert(tokens_from(body, k0) =~= seq![body.subrange(k0, j as int)] + tokens_from(
                    body,
                    j as int,
                ));
            }
            let t = string_from_range(line, k, j);
            proof {
                assert(t@ =~= body.subrange(k0, j as int));
            }
            toks.push(t);
            proof {
                assert(tokens_view(toks@) =~= tokens_view(toks0).push(t@));
                assert(tokens_view(toks0).push(t@) + tokens_from(body, j as int) =~= tokens_view(
                    toks0,
                ) + (seq![body.subrange(k0, j as int)] + tokens_from(body, j as int)));
            }
            k = j;
        }
    }
    proof {
        assert(tokens_view(toks@) + tokens_from(body, k as int) =~= tokens_view(toks@));
    }
    toks
}

/// Lexes the source buffer: line by line, everything from the first `;` on
/// is dropped, and the remainder splits into tokens on blank space and
/// commas. An empty or comment-only line yields no tokens.
pub fn lex(input: &str) -> (r: Vec<Vec<String>>)
    ensures
        lex_view(r@) == spec_lex(input@),
{
    let cs = chars_of(input);
    let lines = split_lines(&cs);
    let mut out: Vec<Vec<String>> = Vec::new();
    let mut i: usize = 0;
    while i < lines.len()
        invariant
            cs@ == input@,
            lines_view(lines@) == lines_from(input@, 0),
            i <= lines@.len(),
            out@.len() == i,
            forall|j: int|
                0 <= j < i ==> tokens_view(#[trigger] out@[j]@) == line_tokens(
                    lines_view(lines@)[j],
                ),
        decreases lines@.len() - i,
    {
        let toks = tokenize_line(&lines[i]);
        out.push(toks);
        i = i + 1;
    }
    proof {
        assert(lex_view(out@) =~= spec_lex(input@));
    }
    out
}


/// A fatal assembly error: assembly stops immediately, with no partial
/// output. Line numbers are 1-based.
#[derive(Debug, Clone, PartialEq, Eq)]
pub enum AsmError {
    /// The source buffer holds no token at all.
    EmptySource,
    /// A line starts with a word that is no mnemonic of the opcode table.
    UnknownMnemonic { mnemonic: String, line: usize },
    /// A token marked as a binary literal holds no well-formed binary
    /// number.
    InvalidBinary { token: String },
    /// A function block opens inside another one.
    NestedBlock { line: usize },
    /// A block end marker without an open block.
    StrayEnd { line: usize },
}

/// The mathematical shadow of `AsmError`, over character sequences.
pub enum SpecAsmError {
    EmptySource,
    UnknownMnemonic(Seq<char>, usize),
    InvalidBinary(Seq<char>),
    NestedBlock(usize),
    StrayEnd(usize),
}

/// The error value and its shadow say the same thing.
pub open spec fn err_matches(e: AsmError, g: SpecAsmError) -> bool {
    match e {
        AsmError::EmptySource => g == SpecAsmError::EmptySource,
        AsmError::UnknownMnemonic { mnemonic, line } => g == SpecAsmError::UnknownMnemonic(
            mnemonic@,
            line,
        ),
        AsmError::InvalidBinary { token } => g == SpecAsmError::InvalidBinary(token@),
        AsmError::NestedBlock { line } => g == SpecAsmError::NestedBlock(line),
        AsmError::StrayEnd { line } => g == SpecAsmError::StrayEnd(line),
    }
}

/// A non-empty run of binary digits.
pub open spec fn is_bin_digits(d: Seq<char>) -> bool {
    d.len() > 0 && forall|i: int| 0 <= i < d.len() ==> #[trigger] d[i] == '0' || d[i] == '1'
}

/// The value of a run of binary digits, most significant first.
pub open spec fn bin_val(d: Seq<char>) -> nat
    decreases d.len(),
{
    if d.len() == 0 {
        0
    } else {
        bin_val(d.drop_last()) * 2 + (if d.last() == '1' {
            1nat
        } else {
            0nat
        })
    }
}

/// A non-empty run of decimal digits.
pub open spec fn is_dec_digits(t: Seq<char>) -> bool {
    t.len() > 0 && forall|i: int| 0 <= i < t.len() ==> is_digit_char(#[trigger] t[i])
}

/// The value of a run of decimal digits, most significant first.
pub open spec fn dec_val(t: Seq<char>) -> nat
    decreases t.len(),
{
    if t.len() == 0 {
        0
    } else {
        dec_val(t.drop_last()) * 10 + (digit_val_nat(t.last()))
    }
}

pub open spec fn digit_val_nat(c: char) -> nat {
    (c as u32 - 48) as nat
}

proof fn lemma_bin_val_push(d: Seq<char>, c: char)
    ensures
        bin_val(d.push(c)) == bin_val(d) * 2 + (if c == '1' {
            1nat
        } else {
            0nat
        }),
{
    assert(d.push(c).drop_last() =~= d);
    assert(d.push(c).last() == c);
}

proof fn lemma_dec_val_push(t: Seq<char>, c: char)
    ensures
        dec_val(t.push(c)) == dec_val(t) * 10 + digit_val_nat(c),
{
    assert(t.push(c).drop_last() =~= t);
    assert(t.push(c).last() == c);
}

/// The value an operand token resolves to. A binary-marked token is read
/// base-2 from its third character on (reduced to the register width), and
/// is fatal when malformed or too wide for a 32-bit signed read; a plain
/// decimal within the register width is itself; a single letter names a
/// register; anything else defaults to 0.
pub open spec fn spec_parse_value(t: Seq<char>) -> Result<u16, SpecAsmError> {
    if t.len() > 0 && t[0] == 'b' && has_b_num(t) {
        let d = t.subrange(2, t.len() as int);
        if is_bin_digits(d) && bin_val(d) <= 0x7FFFFFFF {
            Ok((bin_val(d) % 0x10000) as u16)
        } else {
            Err(SpecAsmError::InvalidBinary(t))
        }
    } else if is_dec_digits(t) && dec_val(t) <= 0xFFFF {
        Ok(dec_val(t) as u16)
    } else if t.len() == 1 && is_ascii_letter(t[0]) {
        Ok(letter_index(t[0]) as u16)
    } else {
        Ok(0u16)
    }
}

/// Converts one operand token into a value, as `spec_parse_value` says.
pub fn parse_value(token: &str) -> (r: Result<u16, AsmError>)
    ensures
        match r {
            Ok(v) => spec_parse_value(token@) == Ok::<u16, SpecAsmError>(v),
            Err(e) => spec_parse_value(token@) matches Err(g) && err_matches(e, g),
        },
{
    let cs = chars_of(token);
    let n = cs.len();
    if n > 0 && cs[0] == 'b' && has_b_with_num(token) {
        proof {
            let i = choose|i: int|
                0 <= i && i + 1 < token@.len() && (#[trigger] token@[i] == 'b' || token@[i] == 'B')
                    && is_digit_char(token@[i + 1]);
            assert(n >= 2);
        }
        let ghost d = token@.subrange(2, n as int);
        if n == 2 {
            proof {
                assert(!is_bin_digits(d));
            }
            return Err(AsmError::InvalidBinary { token: token.to_owned() });
        }
        let mut acc: u64 = 0;
        let mut big = false;
        let mut j: usize = 2;
        while j < n
            invariant
                2 <= j <= n,
                n == token@.len(),
                cs@ == token@,
                token@[0] == 'b',
                has_b_num(token@),
                d == token@.subrange(2, n as int),
                forall|m: int| 2 <= m < j ==> #[trigger] token@[m] == '0' || token@[m] == '1',
                !big ==> acc == bin_val(token@.subrange(2, j as int)) && acc <= 0x7FFFFFFF,
                big ==> bin_val(token@.subrange(2, j as int)) > 0x7FFFFFFF,
            decreases n - j,
        {
            let c = cs[j];
            if c == '0' || c == '1' {
                let bit: u64 = if c == '1' {
                    1
                } else {
                    0
                };
                let ghost pre = token@.subrange(2, j as int);
                proof {
                    assert(token@.subrange(2, j + 1 as int) =~= pre.push(token@[j as int]));
                    lemma_bin_val_push(pre, token@[j as int]);
                }
                if !big {
                    acc = acc * 2 + bit;
                    if acc > 0x7FFFFFFF {
                        big = true;
                    }
                }
                j = j + 1;
            } else {
                proof {
                    assert(d[j - 2] == token@[j as int]);
                    assert(!is_bin_digits(d));
                }
                return Err(AsmError::InvalidBinary { token: token.to_owned() });
            }
        }
        proof {
            assert(token@.subrange(2, n as int) =~= d);
            assert(is_bin_digits(d));
        }
        if big {
            return Err(AsmError::InvalidBinary { token: token.to_owned() });
        }
        return Ok((acc % 0x10000) as u16);
    }
    let mut all_digits = n > 0;
    let mut acc: u32 = 0;
    let mut big = false;
    let mut j: usize = 0;
    while j < n && all_digits
        invariant
            j <= n,
            n == token@.len(),
            cs@ == token@,
            !(token@.len() > 0 && token@[0] == 'b' && has_b_num(token@)),
            all_digits ==> forall|m: int| 0 <= m < j ==> is_digit_char(#[trigger] token@[m]),
            all_digits && !big ==> acc == dec_val(token@.subrange(0, j as int)) && acc <= 0xFFFF,
            all_digits && big ==> dec_val(token@.subrange(0, j as int)) > 0xFFFF,
            !all_digits ==> !is_dec_digits(token@),
            all_digits ==> n > 0,
        decreases n - j,
    {
        let c = cs[j];
        let cu = c as u32;
        if 48 <= cu && cu <= 57 {
            let ghost pre = token@.subrange(0, j as int);
            proof {
                assert(token@.subrange(0, j + 1 as int) =~= pre.push(token@[j as int]));
                lemma_dec_val_push(pre, token@[j as int]);
            }
            if !big {
                acc = acc * 10 + (cu - 48);
                if acc > 0xFFFF {
                    big = true;
                }
            }
        } else {
            all_digits = false;
            proof {
                assert(!is_digit_char(token@[j as int]));
            }
        }
        j = j + 1;
    }
    if all_digits && !big {
        proof {
            assert(token@.subrange(0, n as int) =~= token@);
            assert(is_dec_digits(token@));
        }
        return Ok(acc as u16);
    }
    proof {
        if all_digits {
            assert(token@.subrange(0, n as int) =~= token@);
        }
        assert(!(is_dec_digits(token@) && dec_val(token@) <= 0xFFFF));
    }
    if n == 1 {
        match letter_to_integer(cs[0]) {
            Some(v) => {
                return Ok(v as u16);
            },
            None => {},
        }
    }
    Ok(0)
}

/// The destination and source values of a tokenized line: token 1 and
/// token 2, each through `spec_parse_value`, a missing token defaulting
/// to 0; the destination is resolved first, so its error wins.
pub open spec fn spec_parse_operands(tokens: Seq<Seq<char>>) -> Result<(u16, u16), SpecAsmError> {
    let dv = if tokens.len() >= 2 {
        spec_parse_value(tokens[1])
    } else {
        Ok(0u16)
    };
    match dv {
        Err(e) => Err(e),
        Ok(d) => {
            let sv = if tokens.len() >= 3 {
                spec_parse_value(tokens[2])
            } else {
                Ok(0u16)
            };
            match sv {
                Err(e) => Err(e),
                Ok(s) => Ok((d, s)),
            }
        },
    }
}

/// Resolves the destination and source operands of a tokenized line.
pub fn parse_operands(tokens: &[String]) -> (r: Result<(u16, u16), AsmError>)
    ensures
        match r {
            Ok(p) => spec_parse_operands(tokens_view(tokens@)) == Ok::<(u16, u16), SpecAsmError>(
                p,
            ),
            Err(e) => spec_parse_operands(tokens_view(tokens@)) matches Err(g) && err_matches(
                e,
                g,
            ),
        },
{
    let dest: u16 = if tokens.len() >= 2 {
        match parse_value(tokens[1].as_str()) {
            Ok(v) => v,
            Err(e) => {
                return Err(e);
            },
        }
    } else {
        0
    };
    let src: u16 = if tokens.len() >= 3 {
        match parse_value(tokens[2].as_str()) {
            Ok(v) => v,
            Err(e) => {
                return Err(e);
            },
        }
    } else {
        0
    };
    Ok((dest, src))
}


/// The character `c` reads as the upper-case character `u` when compared
/// case-insensitively.
pub open spec fn upper_matches(c: char, u: char) -> bool {
    c == u || (is_ascii_lower(c) && c as u32 == u as u32 + 32)
}

/// The token spells the (upper-case) mnemonic, compared case-insensitively.
pub open spec fn eq_ignore_case(t: Seq<char>, m: Seq<char>) -> bool {
    t.len() == m.len() && forall|i: int| 0 <= i < t.len() ==> #[trigger] upper_matches(t[i], m[i])
}

/// Whether the token spells the mnemonic, ignoring ASCII case.
fn mnemonic_eq(t: &str, m: &str) -> (r: bool)
    ensures
        r == eq_ignore_case(t@, m@),
{
    let tn = t.unicode_len();
    let mn = m.unicode_len();
    if tn != mn {
        return false;
    }
    let mut i: usize = 0;
    while i < tn
        invariant
            i <= tn,
            tn == t@.len(),
            tn == m@.len(),
            forall|j: int| 0 <= j < i ==> #[trigger] upper_matches(t@[j], m@[j]),
        decreases tn - i,
    {
        let tc = t.get_char(i);
        let mc = m.get_char(i);
        let tu = tc as u32;
        let mu = mc as u32;
        if tc == mc || (97 <= tu && tu <= 122 && tu - 32 == mu) {
            i = i + 1;
        } else {
            proof {
                assert(!upper_matches(t@[i as int], m@[i as int]));
            }
            return false;
        }
    }
    true
}

/// Whether the token spells a mnemonic of the opcode table.
pub open spec fn is_known_mnemonic(m: Seq<char>) -> bool {
    ||| eq_ignore_case(m, "ADD"@)
    ||| eq_ignore_case(m, "SUB"@)
    ||| eq_ignore_case(m, "MUL"@)
    ||| eq_ignore_case(m, "MOV"@)
    ||| eq_ignore_case(m, "SWAP"@)
    ||| eq_ignore_case(m, "DIV"@)
    ||| eq_ignore_case(m, "CLR"@)
    ||| eq_ignore_case(m, "DEC"@)
    ||| eq_ignore_case(m, "INC"@)
    ||| eq_ignore_case(m, "CMP"@)
    ||| eq_ignore_case(m, "HALT"@)
    ||| eq_ignore_case(m, "PRINT"@)
    ||| eq_ignore_case(m, "POW"@)
    ||| eq_ignore_case(m, "MOVR"@)
    ||| eq_ignore_case(m, "JMP"@)
    ||| eq_ignore_case(m, "NOP"@)
}

/// The instruction a known mnemonic and its resolved operands build.
/// Register-register mnemonics take both values; MOV and POW read the
/// second value as an immediate; single-operand mnemonics use only the
/// first; HALT and NOP ignore both.
pub open spec fn instr_of(m: Seq<char>, dest: u16, src: u16) -> Instruction {
    if eq_ignore_case(m, "ADD"@) {
        Instruction::ADD(dest, src)
    } else if eq_ignore_case(m, "SUB"@) {
        Instruction::SUB(dest, src)
    } else if eq_ignore_case(m, "MUL"@) {
        Instruction::MUL(dest, src)
    } else if eq_ignore_case(m, "MOV"@) {
        Instruction::MOV(dest, src)
    } else if eq_ignore_case(m, "SWAP"@) {
        Instruction::SWAP(dest, src)
    } else if eq_ignore_case(m, "DIV"@) {
        Instruction::DIV(dest, src)
    } else if eq_ignore_case(m, "CLR"@) {
        Instruction::CLR(dest)
    } else if eq_ignore_case(m, "DEC"@) {
        Instruction::DEC(dest)
    } else if eq_ignore_case(m, "INC"@) {
        Instruction::INC(dest)
    } else if eq_ignore_case(m, "CMP"@) {
        Instruction::CMP(dest, src)
    } else if eq_ignore_case(m, "HALT"@) {
        Instruction::HALT
    } else if eq_ignore_case(m, "PRINT"@) {
        Instruction::PRINT(dest)
    } else if eq_ignore_case(m, "POW"@) {
        Instruction::POW(dest, src)
    } else if eq_ignore_case(m, "MOVR"@) {
        Instruction::MOVR(dest, src)
    } else if eq_ignore_case(m, "JMP"@) {
        Instruction::JMP(dest)
    } else {
        Instruction::NOP
    }
}

/// One tokenized line parsed to an instruction: the first token must spell
/// a mnemonic of the table (else a fatal error naming it and the 1-based
/// line), and the operand tokens resolve through `spec_parse_operands`.
pub open spec fn spec_parse_instruction(tokens: Seq<Seq<char>>, line: usize) -> Result<
    Instruction,
    SpecAsmError,
> {
    if !is_known_mnemonic(tokens[0]) {
        Err(SpecAsmError::UnknownMnemonic(tokens[0], line))
    } else {
        match spec_parse_operands(tokens) {
            Err(e) => Err(e),
            Ok((d, s)) => Ok(instr_of(tokens[0], d, s)),
        }
    }
}

/// Parses one tokenized line, as `spec_parse_instruction` says.
pub fn parse_instruction(tokens: &[String], line_number: usize) -> (r: Result<
    Instruction,
    AsmError,
>)
    requires
        tokens@.len() >= 1,
    ensures
        match r {
            Ok(i) => spec_parse_instruction(tokens_view(tokens@), line_number) == Ok::<
                Instruction,
                SpecAsmError,
            >(i),
            Err(e) => spec_parse_instruction(tokens_view(tokens@), line_number) matches Err(g)
                && err_matches(e, g),
        },
{
    let m = tokens[0].as_str();
    let known = mnemonic_eq(m, "ADD") || mnemonic_eq(m, "SUB") || mnemonic_eq(m, "MUL")
        || mnemonic_eq(m, "MOV") || mnemonic_eq(m, "SWAP") || mnemonic_eq(m, "DIV")
        || mnemonic_eq(m, "CLR") || mnemonic_eq(m, "DEC") || mnemonic_eq(m, "INC")
        || mnemonic_eq(m, "CMP") || mnemonic_eq(m, "HALT") || mnemonic_eq(m, "PRINT")
        || mnemonic_eq(m, "POW") || mnemonic_eq(m, "MOVR") || mnemonic_eq(m, "JMP")
        || mnemonic_eq(m, "NOP");
    if !known {
        return Err(AsmError::UnknownMnemonic { mnemonic: tokens[0].clone(), line: line_number });
    }
    let (dest, src) = match parse_operands(tokens) {
        Ok(p) => p,
        Err(e) => {
            return Err(e);
        },
    };
    if mnemonic_eq(m, "ADD") {
        Ok(Instruction::ADD(dest, src))
    } else if mnemonic_eq(m, "SUB") {
        Ok(Instruction::SUB(dest, src))
    } else if mnemonic_eq(m, "MUL") {
        Ok(Instruction::MUL(dest, src))
    } else if mnemonic_eq(m, "MOV") {
        Ok(Instruction::MOV(dest, src))
    } else if mnemonic_eq(m, "SWAP") {
        Ok(Instruction::SWAP(dest, src))
    } else if mnemonic_eq(m, "DIV") {
        Ok(Instruction::DIV(dest, src))
    } else if mnemonic_eq(m, "CLR") {
        Ok(Instruction::CLR(dest))
    } else if mnemonic_eq(m, "DEC") {
        Ok(Instruction::DEC(dest))
    } else if mnemonic_eq(m, "INC") {
        Ok(Instruction::INC(dest))
    } else if mnemonic_eq(m, "CMP") {
        Ok(Instruction::CMP(dest, src))
    } else if mnemonic_eq(m, "HALT") {
        Ok(Instruction::HALT)
    } else if mnemonic_eq(m, "PRINT") {
        Ok(Instruction::PRINT(dest))
    } else if mnemonic_eq(m, "POW") {
        Ok(Instruction::POW(dest, src))
    } else if mnemonic_eq(m, "MOVR") {
        Ok(Instruction::MOVR(dest, src))
    } else if mnemonic_eq(m, "JMP") {
        Ok(Instruction::JMP(dest))
    } else {
        Ok(Instruction::NOP)
    }
}

/// The fast-path marker: the raw remainder of the buffer opens with the
/// four characters `HALT`.
pub open spec fn starts_with_halt(l: Seq<char>) -> bool {
    l.len() >= 4 && l.subrange(0, 4) == "HALT"@
}

fn line_starts_with_halt(line: &Vec<char>) -> (r: bool)
    ensures
        r == starts_with_halt(line@),
{
    proof {
        reveal_strlit("HALT");
    }
    if line.len() >= 4 && line[0] == 'H' && line[1] == 'A' && line[2] == 'L' && line[3] == 'T' {
        proof {
            assert(line@.subrange(0, 4) =~= "HALT"@);
        }
        true
    } else {
        proof {
            if line@.len() >= 4 {
                assert(line@.subrange(0, 4)[0] == line@[0]);
                assert(line@.subrange(0, 4)[1] == line@[1]);
                assert(line@.subrange(0, 4)[2] == line@[2]);
                assert(line@.subrange(0, 4)[3] == line@[3]);
            }
        }
        false
    }
}

fn starts_with_dot(t: &String) -> (r: bool)
    ensures
        r == (t@.len() > 0 && t@[0] == '.'),
{
    let s = t.as_str();
    if s.unicode_len() > 0 {
        s.get_char(0) == '.'
    } else {
        false
    }
}

/// The instruction sequence the lines from index `i` on assemble to, with
/// `in_block` saying whether a function block is open. A line whose raw text
/// opens with `HALT` stops assembly at once. Lines inside an open block are
/// parsed the same way but contribute nothing to the main sequence. A block
/// inside a block, and a block end without an open block, are fatal.
pub open spec fn spec_parse_lines(
    lines: Seq<Seq<char>>,
    toks: Seq<Seq<Seq<char>>>,
    i: int,
    in_block: bool,
) -> Result<Seq<Instruction>, SpecAsmError>
    decreases lines.len() - i,
    when 0 <= i <= lines.len() && toks.len() == lines.len()
{
    if i >= lines.len() {
        Ok(Seq::empty())
    } else if starts_with_halt(lines[i]) {
        Ok(Seq::empty())
    } else {
        let t = toks[i];
        if t.len() == 0 {
            spec_parse_lines(lines, toks, i + 1, in_block)
        } else if t[0].len() > 0 && t[0][0] == '.' {
            if t[0] == ".end"@ {
                if in_block {
                    spec_parse_lines(lines, toks, i + 1, false)
                } else {
                    Err(SpecAsmError::StrayEnd((i + 1) as usize))
                }
            } else {
                if !in_block {
                    spec_parse_lines(lines, toks, i + 1, true)
                } else {
                    Err(SpecAsmError::NestedBlock((i + 1) as usize))
                }
            }
        } else {
            match spec_parse_instruction(t, (i + 1) as usize) {
                Err(e) => Err(e),
                Ok(ins) => match spec_parse_lines(lines, toks, i + 1, in_block) {
                    Err(e) => Err(e),
                    Ok(rest) => if in_block {
                        Ok(rest)
                    } else {
                        Ok(seq![ins] + rest)
                    },
                },
            }
        }
    }
}

/// No line of the lexed buffer holds a token.
pub open spec fn no_tokens(toks: Seq<Seq<Seq<char>>>) -> bool {
    forall|i: int| 0 <= i < toks.len() ==> #[trigger] toks[i].len() == 0
}

/// What assembling a whole source buffer yields: a buffer that lexes to no
/// token at all is fatal; otherwise the lines assemble in order and an
/// implicit HALT is appended.
pub open spec fn spec_parse(s: Seq<char>) -> Result<Seq<Instruction>, SpecAsmError> {
    let lines = lines_from(s, 0);
    let toks = spec_lex(s);
    if no_tokens(toks) {
        Err(SpecAsmError::EmptySource)
    } else {
        match spec_parse_lines(lines, toks, 0, false) {
            Err(e) => Err(e),
            Ok(ins) => Ok(ins + seq![Instruction::HALT]),
        }
    }
}

/// Assembles a source buffer into the instruction sequence `spec_parse`
/// describes: lex, parse line by line, resolve operands, and append the
/// implicit trailing HALT.
pub fn parse_file(f_contents: &str) -> (r: Result<Vec<Instruction>, AsmError>)
    ensures
        match r {
            Ok(v) => spec_parse(f_contents@) matches Ok(p) && v@ == p,
            Err(e) => spec_parse(f_contents@) matches Err(g) && err_matches(e, g),
        },
{
    let cs = chars_of(f_contents);
    let lines = split_lines(&cs);
    let toks = lex(f_contents);
    let n = lines.len();
    proof {
        assert(lex_view(toks@).len() == lines_view(lines@).len());
        assert(toks@.len() == n);
    }
    let ghost linesv = lines_view(lines@);
    let ghost toksv = lex_view(toks@);

    let mut any = false;
    let mut j: usize = 0;
    while j < n
        invariant
            j <= n,
            n == toks@.len(),
            toksv == lex_view(toks@),
            any <==> exists|m: int| 0 <= m < j && #[trigger] toksv[m].len() > 0,
        decreases n - j,
    {
        if toks[j].len() > 0 {
            proof {
                assert(toksv[j as int].len() > 0);
            }
            any = true;
        }
        j = j + 1;
    }
    if !any {
        proof {
            assert(no_tokens(toksv));
        }
        return Err(AsmError::EmptySource);
    }

    let mut out: Vec<Instruction> = Vec::new();
    let mut in_block = false;
    let mut i: usize = 0;
    while i < n
        invariant
            i <= n,
            n == lines@.len(),
            n == toks@.len(),
            cs@ == f_contents@,
            linesv == lines_view(lines@),
            toksv == lex_view(toks@),
            linesv == lines_from(f_contents@, 0),
            toksv == spec_lex(f_contents@),
            !no_tokens(toksv),
            spec_parse_lines(linesv, toksv, i as int, in_block) matches Ok(rest)
                ==> spec_parse_lines(linesv, toksv, 0, false) == Ok::<
                Seq<Instruction>,
                SpecAsmError,
            >(out@ + rest),
            spec_parse_lines(linesv, toksv, i as int, in_block) matches Err(e)
                ==> spec_parse_lines(linesv, toksv, 0, false) == Err::<
                Seq<Instruction>,
                SpecAsmError,
            >(e),
        decreases n - i,
    {
        let ghost i0 = i as int;
        let ghost block0 = in_block;
        let ghost out0 = out@;
        if line_starts_with_halt(&lines[i]) {
            proof {
                assert(spec_parse_lines(linesv, toksv, i0, block0) == Ok::<
                    Seq<Instruction>,
                    SpecAsmError,
                >(Seq::<Instruction>::empty()));
                assert(out0 + Seq::<Instruction>::empty() =~= out0);
            }
            out.push(Instruction::HALT);
            proof {
                assert(out@ =~= out0 + seq![Instruction::HALT]);
            }
            return Ok(out);
        }
        let t_len = toks[i].len();
        if t_len == 0 {
            proof {
                assert(toksv[i0].len() == 0);
                assert(spec_parse_lines(linesv, toksv, i0, block0) == spec_parse_lines(
                    linesv,
                    toksv,
                    i0 + 1,
                    block0,
                ));
            }
        } else if starts_with_dot(&toks[i][0]) {
            proof {
                assert(toksv[i0][0] == toks@[i0]@[0]@);
                assert(toksv[i0][0].len() > 0 && toksv[i0][0][0] == '.');
            }
            if str_eq(toks[i][0].as_str(), ".end") {
                if in_block {
                    in_block = false;
                    proof {
                        assert(spec_parse_lines(linesv, toksv, i0, block0) == spec_parse_lines(
                            linesv,
                            toksv,
                            i0 + 1,
                            false,
                        ));
                    }
                } else {
                    proof {
                        assert(spec_parse_lines(linesv, toksv, i0, block0) == Err::<
                            Seq<Instruction>,
                            SpecAsmError,
                        >(SpecAsmError::StrayEnd((i0 + 1) as usize)));
                    }
                    return Err(AsmError::StrayEnd { line: i + 1 });
                }
            } else {
                if !in_block {
                    in_block = true;
                    proof {
                        assert(spec_parse_lines(linesv, toksv, i0, block0) == spec_parse_lines(
                            linesv,
                            toksv,
                            i0 + 1,
                            true,
                        ));
                    }
                } else {
                    proof {
                        assert(spec_parse_lines(linesv, toksv, i0, block0) == Err::<
                            Seq<Instruction>,
                            SpecAsmError,
                        >(SpecAsmError::NestedBlock((i0 + 1) as usize)));
                    }
                    return Err(AsmError::NestedBlock { line: i + 1 });
                }
            }
        } else {
            proof {
                assert(tokens_view(toks@[i0]@) == toksv[i0]);
                assert(toksv[i0][0].len() == 0 || toksv[i0][0][0] != '.');
            }
            match parse_instruction(toks[i].as_slice(), i + 1) {
                Ok(ins) => {
                    proof {
                        assert(spec_parse_instruction(toksv[i0], (i0 + 1) as usize) == Ok::<
                            Instruction,
                            SpecAsmError,
                        >(ins));
                    }
                    if !in_block {
                        out.push(ins);
                        proof {
                            if spec_parse_lines(linesv, toksv, i0 + 1, block0) is Ok {
                                let rest = spec_parse_lines(linesv, toksv, i0 + 1, block0)->Ok_0;
                                assert(spec_parse_lines(linesv, toksv, i0, block0) == Ok::<
                                    Seq<Instruction>,
                                    SpecAsmError,
                                >(seq![ins] + rest));
                                assert(out0 + (seq![ins] + rest) =~= out@ + rest);
                            }
                        }
                    } else {
                        proof {
                            if spec_parse_lines(linesv, toksv, i0 + 1, block0) is Ok {
                                let rest = spec_parse_lines(linesv, toksv, i0 + 1, block0)->Ok_0;
                                assert(spec_parse_lines(linesv, toksv, i0, block0) == Ok::<
                                    Seq<Instruction>,
                                    SpecAsmError,
                                >(rest));
                            }
                        }
                    }
                },
                Err(e) => {
                    proof {
                        assert(spec_parse_instruction(toksv[i0], (i0 + 1) as usize) matches Err(
                            g,
                        ) && err_matches(e, g));
                        assert(spec_parse_lines(linesv, toksv, i0, block0) matches Err(g)
                            && err_matches(e, g));
                    }
                    return Err(e);
                },
            }
        }
        i = i + 1;
    }
    proof {
        assert(spec_parse_lines(linesv, toksv, i as int, in_block) == Ok::<
            Seq<Instruction>,
            SpecAsmError,
        >(Seq::<Instruction>::empty()));
    }
    let ghost inner = out@;
    out.push(Instruction::HALT);
    proof {
        assert(out@ =~= inner + seq![Instruction::HALT]);
        assert(inner + Seq::<Instruction>::empty() =~= inner);
    }
    Ok(out)
}

/// A run of separators holds no token.
proof fn lemma_tokens_all_sep(l: Seq<char>, i: int)
    requires
        0 <= i <= l.len(),
        forall|j: int| i <= j < l.len() ==> is_separator(l[j]),
    ensures
        tokens_from(l, i) == Seq::<Seq<char>>::empty(),
    decreases l.len() - i,
{
    if i < l.len() {
        lemma_tokens_all_sep(l, i + 1);
    }
}

/// A line whose comment-stripped text holds only blank space and commas
/// lexes to no token.
pub open spec fn blank_line(l: Seq<char>) -> bool {
    forall|j: int| 0 <= j < strip_comment(l).len() ==> is_separator(#[trigger] strip_comment(l)[j])
}

/// A source buffer of nothing but blank space and comments is empty after
/// lexing, and assembling it is fatal under the empty-buffer rule.
pub proof fn lemma_blank_source_fatal(s: Seq<char>)
    requires
        forall|i: int| 0 <= i < lines_from(s, 0).len() ==> blank_line(#[trigger] lines_from(s, 0)[i]),
    ensures
        spec_parse(s) == Err::<Seq<Instruction>, SpecAsmError>(SpecAsmError::EmptySource),
{
    assert forall|i: int| 0 <= i < spec_lex(s).len() implies #[trigger] spec_lex(s)[i].len()
        == 0 by {
        let l = lines_from(s, 0)[i];
        lemma_find_from_bounds(l, ';', 0);
        lemma_tokens_all_sep(strip_comment(l), 0);
        assert(spec_lex(s)[i] == line_tokens(l));
    }
    assert(no_tokens(spec_lex(s)));
}


/// Blank space that trimming removes from the end of the stripped buffer.
pub open spec fn is_trim_space(c: char) -> bool {
    is_space_char(c) || c == '\n'
}

/// Whether trimming removes the character from the end of the buffer.
fn trim_space_char(c: char) -> (r: bool)
    ensures
        r == is_trim_space(c),
{
    c == ' ' || c == '\t' || c == '\r' || c == '\n'
}

/// The buffer with trailing blank space removed.
pub open spec fn trim_end_spaces(s: Seq<char>) -> Seq<char>
    decreases s.len(),
{
    if s.len() > 0 && is_trim_space(s.last()) {
        trim_end_spaces(s.drop_last())
    } else {
        s
    }
}

/// A cut below which nothing is trimmed and at or past which everything is
/// blank marks exactly where trimming stops.
proof fn lemma_trim_end_is(s: Seq<char>, k: int)
    requires
        0 <= k <= s.len(),
        forall|j: int| k <= j < s.len() ==> is_trim_space(#[trigger] s[j]),
        k > 0 ==> !is_trim_space(s[k - 1]),
    ensures
        trim_end_spaces(s) == s.subrange(0, k),
    decreases s.len(),
{
    if s.len() == k {
        assert(s.subrange(0, k) =~= s);
    } else {
        let shorter = s.drop_last();
        assert(shorter =~= s.subrange(0, s.len() - 1));
        lemma_trim_end_is(shorter, k);
        assert(shorter.subrange(0, k) =~= s.subrange(0, k));
    }
}

/// The comment-stripped lines from index `i` on, each closed with a
/// newline, in order.
pub open spec fn stripped_from(lines: Seq<Seq<char>>, i: int) -> Seq<char>
    decreases lines.len() - i,
    when 0 <= i <= lines.len()
{
    if i >= lines.len() {
        Seq::empty()
    } else {
        strip_comment(lines[i]) + seq!['\n'] + stripped_from(lines, i + 1)
    }
}

/// The buffer with every comment removed: each line cut at its first `;`
/// and closed with a newline, and trailing blank space trimmed away.
pub open spec fn spec_remove_comments(s: Seq<char>) -> Seq<char> {
    trim_end_spaces(stripped_from(lines_from(s, 0), 0))
}

/// Strips every comment from the buffer, updating it in place and returning
/// the stripped text, as `spec_remove_comments` says.
pub fn remove_comments(f_contents: &mut String) -> (r: String)
    ensures
        r@ == spec_remove_comments(old(f_contents)@),
        final(f_contents)@ == r@,
{
    let cs = chars_of(f_contents.as_str());
    let lines = split_lines(&cs);
    let ghost linesv = lines_view(lines@);
    let n = lines.len();
    let mut buf: Vec<char> = Vec::new();
    let mut i: usize = 0;
    while i < n
        invariant
            i <= n,
            n == lines@.len(),
            linesv == lines_view(lines@),
            linesv == lines_from(old(f_contents)@, 0),
            buf@ + stripped_from(linesv, i as int) =~= stripped_from(linesv, 0),
        decreases n - i,
    {
        let ghost buf0 = buf@;
        let ghost i0 = i as int;
        let line = &lines[i];
        let ce = scan_char(line, ';', 0);
        let mut k: usize = 0;
        while k < ce
            invariant
                k <= ce,
                ce == find_from(line@, ';', 0),
                ce <= line@.len(),
                buf@ =~= buf0 + line@.subrange(0, k as int),
            decreases ce - k,
        {
            buf.push(line[k]);
            proof {
                assert(buf0 + line@.subrange(0, k as int).push(line@[k as int]) =~= buf0
                    + line@.subrange(0, k + 1 as int));
            }
            k = k + 1;
        }
        buf.push('\n');
        proof {
            assert(line@.subrange(0, ce as int) =~= strip_comment(linesv[i0]));
            assert(buf@ =~= buf0 + (strip_comment(linesv[i0]) + seq!['\n']));
            assert(stripped_from(linesv, i0) =~= strip_comment(linesv[i0]) + seq!['\n']
                + stripped_from(linesv, i0 + 1));
            assert(buf@ + stripped_from(linesv, i0 + 1) =~= buf0 + stripped_from(linesv, i0));
        }
        i = i + 1;
    }
    proof {
        assert(buf@ + stripped_from(linesv, n as int) =~= buf@);
    }
    let mut tl: usize = buf.len();
    let mut trimming = tl > 0 && trim_space_char(buf[tl - 1]);
    while trimming
        invariant
            tl <= buf@.len(),
            trimming ==> tl > 0 && is_trim_space(buf@[tl - 1]),
            !trimming ==> tl == 0 || !is_trim_space(buf@[tl - 1]),
            forall|j: int| tl <= j < buf@.len() ==> is_trim_space(#[trigger] buf@[j]),
        decreases tl,
    {
        tl = tl - 1;
        trimming = tl > 0 && trim_space_char(buf[tl - 1]);
    }
    proof {
        lemma_trim_end_is(buf@, tl as int);
    }
    let r = string_from_range(&buf, 0, tl);
    let out = r.clone();
    *f_contents = r;
    out
}

fn digit_of(d: usize) -> (c: char)
    requires
        d < 10,
    ensures
        c == digit_char(d as int),
{
    match d {
        0 => '0',
        1 => '1',
        2 => '2',
        3 => '3',
        4 => '4',
        5 => '5',
        6 => '6',
        7 => '7',
        8 => '8',
        _ => '9',
    }
}

pub open spec fn digit_char(d: int) -> char {
    if d == 0 {
        '0'
    } else if d == 1 {
        '1'
    } else if d == 2 {
        '2'
    } else if d == 3 {
        '3'
    } else if d == 4 {
        '4'
    } else if d == 5 {
        '5'
    } else if d == 6 {
        '6'
    } else if d == 7 {
        '7'
    } else if d == 8 {
        '8'
    } else {
        '9'
    }
}

/// The decimal spelling of a number, most significant digit first.
pub open spec fn dec_str(n: nat) -> Seq<char>
    decreases n,
{
    if n < 10 {
        seq![digit_char(n as int)]
    } else {
        dec_str(n / 10).push(digit_char((n % 10) as int))
    }
}

/// The decimal spelling of a number.
fn usize_to_string(n: usize) -> (s: String)
    ensures
        s@ == dec_str(n as nat),
    decreases n,
{
    if n < 10 {
        let mut s = String::new();
        push_char(&mut s, digit_of(n));
        proof {
            assert(Seq::<char>::empty().push(digit_char(n as int)) =~= seq![
                digit_char(n as int),
            ]);
        }
        s
    } else {
        let mut s = usize_to_string(n / 10);
        push_char(&mut s, digit_of(n % 10));
        s
    }
}

/// Every line prefixed with its 1-based number and one space, the lines
/// joined with newlines.
pub open spec fn numbered_from(lines: Seq<Seq<char>>, i: int) -> Seq<char>
    decreases lines.len() - i,
    when 0 <= i <= lines.len()
{
    if i >= lines.len() {
        Seq::empty()
    } else {
        let entry = dec_str((i + 1) as nat) + seq![' '] + lines[i];
        if i + 1 < lines.len() {
            entry + seq!['\n'] + numbered_from(lines, i + 1)
        } else {
            entry
        }
    }
}

pub open spec fn spec_append_line_numbers(s: Seq<char>) -> Seq<char> {
    numbered_from(lines_from(s, 0), 0)
}

/// Prefixes every line of the buffer with its 1-based number.
pub fn append_line_numbers(input: &str) -> (r: String)
    ensures
        r@ == spec_append_line_numbers(input@),
{
    let cs = chars_of(input);
    let lines = split_lines(&cs);
    let ghost linesv = lines_view(lines@);
    let n = lines.len();
    let mut out = String::new();
    let mut i: usize = 0;
    while i < n
        invariant
            i <= n,
            n == lines@.len(),
            linesv == lines_view(lines@),
            linesv == lines_from(input@, 0),
            out@ + numbered_from(linesv, i as int) =~= numbered_from(linesv, 0),
            i < n ==> i < usize::MAX,
        decreases n - i,
    {
        let ghost out0 = out@;
        let ghost i0 = i as int;
        let number = usize_to_string(i + 1);
        out.append(number.as_str());
        push_char(&mut out, ' ');
        let line = string_from_range(&lines[i], 0, lines[i].len());
        out.append(line.as_str());
        proof {
            assert(line@ =~= linesv[i0]);
            assert(out@ =~= out0 + (dec_str((i0 + 1) as nat) + seq![' '] + linesv[i0]));
        }
        if i + 1 < n {
            push_char(&mut out, '\n');
            proof {
                assert(numbered_from(linesv, i0) =~= dec_str((i0 + 1) as nat) + seq![' ']
                    + linesv[i0] + seq!['\n'] + numbered_from(linesv, i0 + 1));
                assert(out@ + numbered_from(linesv, i0 + 1) =~= out0 + numbered_from(
                    linesv,
                    i0,
                ));
            }
        } else {
            proof {
                assert(numbered_from(linesv, i0) =~= dec_str((i0 + 1) as nat) + seq![' ']
                    + linesv[i0]);
                assert(out@ + numbered_from(linesv, i0 + 1) =~= out0 + numbered_from(
                    linesv,
                    i0,
                ));
            }
        }
        i = i + 1;
    }
    proof {
        assert(out@ + numbered_from(linesv, n as int) =~= out@);
    }
    out
}

} // verus!
