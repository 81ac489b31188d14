use vstd::prelude::*;
use crate::ast::Span;
use crate::name::{is_name_char, is_name_start, name_seq_wf};

verus! {

/// One lexical token. Malformed input (an unknown character, or a numeric
/// literal past the machine word) becomes an explicit `Error` token so the
/// parser can report it with its position.
#[derive(Debug)]
pub enum Token {
    LParen,
    RParen,
    Equals,
    Semicolon,
    NewLine,
    Dollar,
    Asterisk,
    Lambda,
    Dup,
    Let,
    Name(String),
    Number(u64),
    Add,
    Sub,
    Div,
    Mod,
    And,
    Or,
    Xor,
    Shl,
    Shr,
    Lte,
    Ltn,
    Gte,
    Gtn,
    EqualsEquals,
    NotEquals,
    Error,
}

/// The mathematical shape of a token: a name is its character sequence.
pub enum TokenV {
    LParen,
    RParen,
    Equals,
    Semicolon,
    NewLine,
    Dollar,
    Asterisk,
    Lambda,
    Dup,
    Let,
    Name(Seq<char>),
    Number(u64),
    Add,
    Sub,
    Div,
    Mod,
    And,
    Or,
    Xor,
    Shl,
    Shr,
    Lte,
    Ltn,
    Gte,
    Gtn,
    EqualsEquals,
    NotEquals,
    Error,
}

impl View for Token {
    type V = TokenV;

    open spec fn view(&self) -> TokenV {
        match self {
            Token::LParen => TokenV::LParen,
            Token::RParen => TokenV::RParen,
            Token::Equals => TokenV::Equals,
            Token::Semicolon => TokenV::Semicolon,
            Token::NewLine => TokenV::NewLine,
            Token::Dollar => TokenV::Dollar,
            Token::Asterisk => TokenV::Asterisk,
            Token::Lambda => TokenV::Lambda,
            Token::Dup => TokenV::Dup,
            Token::Let => TokenV::Let,
            Token::Name(s) => TokenV::Name(s@),
            Token::Number(v) => TokenV::Number(*v),
            Token::Add => TokenV::Add,
            Token::Sub => TokenV::Sub,
            Token::Div => TokenV::Div,
            Token::Mod => TokenV::Mod,
            Token::And => TokenV::And,
            Token::Or => TokenV::Or,
            Token::Xor => TokenV::Xor,
            Token::Shl => TokenV::Shl,
            Token::Shr => TokenV::Shr,
            Token::Lte => TokenV::Lte,
            Token::Ltn => TokenV::Ltn,
            Token::Gte => TokenV::Gte,
            Token::Gtn => TokenV::Gtn,
            Token::EqualsEquals => TokenV::EqualsEquals,
            Token::NotEquals => TokenV::NotEquals,
            Token::Error => TokenV::Error,
        }
    }
}

/// The token shapes of a lexed token/span sequence.
pub open spec fn tviews(s: Seq<(Token, Span)>) -> Seq<TokenV> {
    s.map_values(|p: (Token, Span)| p.0@)
}

pub open spec fn is_digit(c: char) -> bool {
    48 <= c as int && c as int <= 57
}

/// The first position at or after `i` that does not continue a name.
pub open spec fn name_end(cs: Seq<char>, i: int) -> int
    decreases cs.len() - i when i <= cs.len()
{
    if 0 <= i && i < cs.len() && is_name_char(cs[i]) {
        name_end(cs, i + 1)
    } else {
        i
    }
}

/// The first position at or after `i` that is not a digit.
pub open spec fn num_end(cs: Seq<char>, i: int) -> int
    decreases cs.len() - i when i <= cs.len()
{
    if 0 <= i && i < cs.len() && is_digit(cs[i]) {
        num_end(cs, i + 1)
    } else {
        i
    }
}

pub proof fn lemma_name_end(cs: Seq<char>, i: int)
    requires
        0 <= i <= cs.len(),
    ensures
        i <= name_end(cs, i) <= cs.len(),
    decreases cs.len() - i,
{
    if i < cs.len() && is_name_char(cs[i]) {
        lemma_name_end(cs, i + 1);
    }
}

pub proof fn lemma_num_end(cs: Seq<char>, i: int)
    requires
        0 <= i <= cs.len(),
    ensures
        i <= num_end(cs, i) <= cs.len(),
    decreases cs.len() - i,
{
    if i < cs.len() && is_digit(cs[i]) {
        lemma_num_end(cs, i + 1);
    }
}

/// The value of a run of decimal digit characters.
pub open spec fn digits_val(ds: Seq<char>) -> int
    decreases ds.len(),
{
    if ds.len() == 0 {
        0
    } else {
        digits_val(ds.drop_last()) * 10 + (ds.last() as int - 48)
    }
}

proof fn lemma_digits_val_nonneg(ds: Seq<char>)
    requires
        forall|i: int| 0 <= i < ds.len() ==> #[trigger] is_digit(ds[i]),
    ensures
        digits_val(ds) >= 0,
    decreases ds.len(),
{
    if ds.len() > 0 {
        let d = ds.drop_last();
        assert forall|i: int| 0 <= i < d.len() implies #[trigger] is_digit(d[i]) by {
            assert(d[i] == ds[i]);
        }
        lemma_digits_val_nonneg(d);
        assert(is_digit(ds.last()));
    }
}

/// A digit run is worth at least any of its prefixes: once a prefix
/// overflows the machine word, the whole literal does.
proof fn lemma_digits_prefix(ds: Seq<char>, k: int)
    requires
        0 <= k <= ds.len(),
        forall|i: int| 0 <= i < ds.len() ==> #[trigger] is_digit(ds[i]),
    ensures
        digits_val(ds) >= digits_val(ds.subrange(0, k)),
    decreases ds.len() - k,
{
    if k == ds.len() {
        assert(ds.subrange(0, k) =~= ds);
        lemma_digits_val_nonneg(ds);
    } else {
        lemma_digits_prefix(ds, k + 1);
        let a = ds.subrange(0, k);
        let b = ds.subrange(0, k + 1);
        assert(b.drop_last() =~= a);
        assert(b.last() == ds[k]);
        assert forall|i: int| 0 <= i < a.len() implies #[trigger] is_digit(a[i]) by {
            assert(a[i] == ds[i]);
        }
        lemma_digits_val_nonneg(a);
        assert(is_digit(ds[k]));
        assert(digits_val(b) == digits_val(a) * 10 + (ds[k] as int - 48));
        assert(digits_val(a) * 10 >= digits_val(a));
        assert(digits_val(ds) >= digits_val(b));
    }
}

/// The token sequence of the source text from position `i` on.
///
/// Whitespace other than a line break is discarded; a line break is a
/// token of its own. Keywords are carved out of the name alphabet. The
/// clamping around recursive positions never changes a value (the scan
/// helpers stay within bounds); it only makes the recursion visibly
/// well-founded.
pub open spec fn spec_lex(cs: Seq<char>, i: int) -> Seq<TokenV>
    decreases cs.len() - i when 0 <= i
{
    if i >= cs.len() {
        Seq::empty()
    } else {
        let c = cs[i];
        let u = c as int;
        if u == 32 || u == 9 || u == 13 {
            spec_lex(cs, i + 1)
        } else if u == 10 {
            seq![TokenV::NewLine] + spec_lex(cs, i + 1)
        } else if is_name_start(c) {
            let j = name_end(cs, i + 1);
            proof {
                lemma_name_end(cs, i + 1);
            }
            let text = cs.subrange(i, j);
            let tok = if text == seq!['d', 'u', 'p'] {
                TokenV::Dup
            } else if text == seq!['l', 'e', 't'] {
                TokenV::Let
            } else {
                TokenV::Name(text)
            };
            seq![tok] + spec_lex(cs, j)
        } else if is_digit(c) {
            let j = num_end(cs, i + 1);
            proof {
                lemma_num_end(cs, i + 1);
            }
            let v = digits_val(cs.subrange(i, j));
            let tok = if v <= u64::MAX as int {
                TokenV::Number(v as u64)
            } else {
                TokenV::Error
            };
            seq![tok] + spec_lex(cs, j)
        } else if u == 955 || u == 64 {
            seq![TokenV::Lambda] + spec_lex(cs, i + 1)
        } else if u == 36 {
            seq![TokenV::Dollar] + spec_lex(cs, i + 1)
        } else if u == 42 {
            seq![TokenV::Asterisk] + spec_lex(cs, i + 1)
        } else if u == 40 {
            seq![TokenV::LParen] + spec_lex(cs, i + 1)
        } else if u == 41 {
            seq![TokenV::RParen] + spec_lex(cs, i + 1)
        } else if u == 59 {
            seq![TokenV::Semicolon] + spec_lex(cs, i + 1)
        } else if u == 43 {
            seq![TokenV::Add] + spec_lex(cs, i + 1)
        } else if u == 45 {
            seq![TokenV::Sub] + spec_lex(cs, i + 1)
        } else if u == 47 {
            seq![TokenV::Div] + spec_lex(cs, i + 1)
        } else if u == 37 {
            seq![TokenV::Mod] + spec_lex(cs, i + 1)
        } else if u == 38 {
            seq![TokenV::And] + spec_lex(cs, i + 1)
        } else if u == 124 {
            seq![TokenV::Or] + spec_lex(cs, i + 1)
        } else if u == 94 {
            seq![TokenV::Xor] + spec_lex(cs, i + 1)
        } else if u == 60 {
            if i + 1 < cs.len() && cs[i + 1] as int == 60 {
                seq![TokenV::Shl] + spec_lex(cs, i + 2)
            } else if i + 1 < cs.len() && cs[i + 1] as int == 61 {
                seq![TokenV::Lte] + spec_lex(cs, i + 2)
            } else {
                seq![TokenV::Ltn] + spec_lex(cs, i + 1)
            }
        } else if u == 62 {
            if i + 1 < cs.len() && cs[i + 1] as int == 62 {
                seq![TokenV::Shr] + spec_lex(cs, i + 2)
            } else if i + 1 < cs.len() && cs[i + 1] as int == 61 {
                seq![TokenV::Gte] + spec_lex(cs, i + 2)
            } else {
                seq![TokenV::Gtn] + spec_lex(cs, i + 1)
            }
        } else if u == 61 {
            if i + 1 < cs.len() && cs[i + 1] as int == 61 {
                seq![TokenV::EqualsEquals] + spec_lex(cs, i + 2)
            } else {
                seq![TokenV::Equals] + spec_lex(cs, i + 1)
            }
        } else if u == 33 {
            if i + 1 < cs.len() && cs[i + 1] as int == 61 {
                seq![TokenV::NotEquals] + spec_lex(cs, i + 2)
            } else {
                seq![TokenV::Error] + spec_lex(cs, i + 1)
            }
        } else {
            seq![TokenV::Error] + spec_lex(cs, i + 1)
        }
    }
}

/// The source range of each token of `spec_lex`, in the same order: a
/// token spans exactly the characters it was lexed from, so an error
/// token carries the position of the lexical failure.
pub open spec fn spec_lex_sp(cs: Seq<char>, i: int) -> Seq<(int, int)>
    decreases cs.len() - i when 0 <= i
{
    if i >= cs.len() {
        Seq::empty()
    } else {
        let c = cs[i];
        let u = c as int;
        if u == 32 || u == 9 || u == 13 {
            spec_lex_sp(cs, i + 1)
        } else if u == 10 {
            seq![(i, i + 1)] + spec_lex_sp(cs, i + 1)
        } else if is_name_start(c) {
            let j = name_end(cs, i + 1);
            proof {
                lemma_name_end(cs, i + 1);
            }
            seq![(i, j)] + spec_lex_sp(cs, j)
        } else if is_digit(c) {
            let j = num_end(cs, i + 1);
            proof {
                lemma_num_end(cs, i + 1);
            }
            seq![(i, j)] + spec_lex_sp(cs, j)
        } else if u == 60 || u == 62 || u == 61 || u == 33 {
            if i + 1 < cs.len() && (cs[i + 1] as int == 61 || ((u == 60 || u == 62) && cs[i
                + 1] as int == u)) {
                seq![(i, i + 2)] + spec_lex_sp(cs, i + 2)
            } else {
                seq![(i, i + 1)] + spec_lex_sp(cs, i + 1)
            }
        } else {
            seq![(i, i + 1)] + spec_lex_sp(cs, i + 1)
        }
    }
}

/// The source ranges of a lexed token/span sequence.
pub open spec fn tspans(s: Seq<(Token, Span)>) -> Seq<(int, int)> {
    s.map_values(|p: (Token, Span)| (p.1.start as int, p.1.end as int))
}

/// Every name token of a lexed sequence is well formed: nonempty, starting
/// with `_` or a letter, continuing in the name alphabet.
pub open spec fn tokens_wf(s: Seq<(Token, Span)>) -> bool {
    forall|k: int|
        0 <= k < s.len() ==> match #[trigger] s[k].0@ {
            TokenV::Name(n) => name_seq_wf(n),
            _ => true,
        }
}

fn is_name_start_c(c: char) -> (b: bool)
    ensures
        b == is_name_start(c),
{
    let u = c as u32;
    u == 95 || (65 <= u && u <= 90) || (97 <= u && u <= 122)
}

fn is_name_char_c(c: char) -> (b: bool)
    ensures
        b == is_name_char(c),
{
    let u = c as u32;
    u == 95 || (65 <= u && u <= 90) || (97 <= u && u <= 122) || (48 <= u && u <= 57)
}

fn is_digit_c(c: char) -> (b: bool)
    ensures
        b == is_digit(c),
{
    let u = c as u32;
    48 <= u && u <= 57
}

/// Scan to the end of a name run.
fn scan_name_end(s: &str, start: usize) -> (j: usize)
    requires
        start <= s@.len(),
    ensures
        j as int == name_end(s@, start as int),
        start <= j <= s@.len(),
        forall|m: int| start <= m < j ==> is_name_char(s@[m]),
{
    let n = s.unicode_len();
    let mut j = start;
    while j < n && is_name_char_c(s.get_char(j))
        invariant
            start <= j <= n,
            n == s@.len(),
            name_end(s@, start as int) == name_end(s@, j as int),
            forall|m: int| start <= m < j ==> is_name_char(s@[m]),
        decreases n - j,
    {
        j = j + 1;
    }
    j
}

/// Scan to the end of a digit run.
fn scan_num_end(s: &str, start: usize) -> (j: usize)
    requires
        start <= s@.len(),
    ensures
        j as int == num_end(s@, start as int),
        start <= j <= s@.len(),
        forall|m: int| start <= m < j ==> is_digit(s@[m]),
{
    let n = s.unicode_len();
    let mut j = start;
    while j < n && is_digit_c(s.get_char(j))
        invariant
            start <= j <= n,
            n == s@.len(),
            num_end(s@, start as int) == num_end(s@, j as int),
            forall|m: int| start <= m < j ==> is_digit(s@[m]),
        decreases n - j,
    {
        j = j + 1;
    }
    j
}

/// The value of the digit run `s[start..j]`, or `None` past the machine
/// word.
fn digits_value(s: &str, start: usize, j: usize) -> (r: Option<u64>)
    requires
        start <= j <= s@.len(),
        forall|m: int| start <= m < j ==> is_digit(s@[m]),
    ensures
        ({
            let v = digits_val(s@.subrange(start as int, j as int));
            match r {
                Option::Some(x) => v <= u64::MAX as int && x as int == v,
                Option::None => v > u64::MAX as int,
            }
        }),
{
    let ghost full = s@.subrange(start as int, j as int);
    proof {
        assert forall|i: int| 0 <= i < full.len() implies #[trigger] is_digit(full[i]) by {
            assert(full[i] == s@[start + i]);
        }
    }
    let mut v: u64 = 0;
    let mut k = start;
    while k < j
        invariant
            start <= k <= j <= s@.len(),
            forall|m: int| start <= m < j ==> is_digit(s@[m]),
            full == s@.subrange(start as int, j as int),
            forall|i: int| 0 <= i < full.len() ==> #[trigger] is_digit(full[i]),
            v as int == digits_val(s@.subrange(start as int, k as int)),
        decreases j - k,
    {
        let c = s.get_char(k);
        assert(is_digit(s@[k as int]));
        let d = (c as u32) as u64 - 48;
        let ghost pre = s@.subrange(start as int, k as int);
        let ghost post = s@.subrange(start as int, k as int + 1);
        proof {
            assert(post.drop_last() =~= pre);
            assert(post.last() == s@[k as int]);
        }
        if v > (u64::MAX - d) / 10 {
            proof {
                assert(digits_val(post) == digits_val(pre) * 10 + (c as int - 48));
                assert(v as int <= digits_val(post));
                assert(digits_val(post) > u64::MAX as int) by {
                    assert(v as int > (u64::MAX as int - d as int) / 10);
                    assert(digits_val(pre) * 10 + (c as int - 48) > u64::MAX as int) by (nonlinear_arith)
                        requires
                            digits_val(pre) == v as int,
                            v as int > (u64::MAX as int - d as int) / 10,
                            d as int == c as int - 48,
                            0 <= d < 10,
                    {
                    }
                }
                assert(full.subrange(0, k as int + 1 - start) =~= post);
                lemma_digits_prefix(full, k as int + 1 - start);
                assert(digits_val(full) >= digits_val(post));
            }
            return Option::None;
        }
        proof {
            assert(v * 10 + d <= u64::MAX) by (nonlinear_arith)
                requires
                    0 <= d < 10,
                    0 <= v,
                    v as int <= (u64::MAX as int - d as int) / 10,
            {
            }
        }
        v = v * 10 + d;
        k = k + 1;
        proof {
            assert(v as int == digits_val(post));
        }
    }
    proof {
        assert(s@.subrange(start as int, k as int) =~= full);
    }
    Option::Some(v)
}

/// Turn source text into its token sequence, each token carrying its
/// source range.
pub fn lex(code: &str) -> (r: Vec<(Token, Span)>)
    ensures
        tviews(r@) == spec_lex(code@, 0),
        tspans(r@) == spec_lex_sp(code@, 0),
        tokens_wf(r@),
        forall|k: int| 0 <= k < r@.len() ==> (#[trigger] r@[k].1).start < r@[k].1.end <= code@.len(),
{
    let n = code.unicode_len();
    let mut out: Vec<(Token, Span)> = Vec::new();
    let mut i: usize = 0;
    while i < n
        invariant
            0 <= i <= n,
            n == code@.len(),
            tviews(out@) + spec_lex(code@, i as int) == spec_lex(code@, 0),
            tspans(out@) + spec_lex_sp(code@, i as int) == spec_lex_sp(code@, 0),
            tokens_wf(out@),
            forall|k: int|
                0 <= k < out@.len() ==> (#[trigger] out@[k].1).start < out@[k].1.end <= code@.len(),
        decreases n - i,
    {
        let ghost pre = out@;
        let c = code.get_char(i);
        let u = c as u32;
        // Decide this token (or skipped character) and where the next begins.
        let (tok, next): (Option<Token>, usize) = if u == 32 || u == 9 || u == 13 {
            (Option::None, i + 1)
        } else if u == 10 {
            (Option::Some(Token::NewLine), i + 1)
        } else if is_name_start_c(c) {
            let j = scan_name_end(code, i + 1);
            let text = code.substring_char(i, j).to_owned();
            let is_dup = j - i == 3 && code.get_char(i) == 'd' && code.get_char(i + 1) == 'u'
                && code.get_char(i + 2) == 'p';
            let is_let = j - i == 3 && code.get_char(i) == 'l' && code.get_char(i + 1) == 'e'
                && code.get_char(i + 2) == 't';
            proof {
                if j - i == 3 {
                    assert(text@.len() == 3);
                    assert(text@[0] == code@[i as int]);
                    assert(text@[1] == code@[i as int + 1]);
                    assert(text@[2] == code@[i as int + 2]);
                    if is_dup {
                        assert(text@ =~= seq!['d', 'u', 'p']);
                    }
                    if is_let {
                        assert(text@ =~= seq!['l', 'e', 't']);
                    }
                }
                if !is_dup {
                    assert(text@ != seq!['d', 'u', 'p']) by {
                        if text@ == seq!['d', 'u', 'p'] {
                            assert(text@.len() == 3);
                            assert(text@[0] == 'd' && text@[1] == 'u' && text@[2] == 'p');
                        }
                    }
                }
                if !is_let {
                    assert(text@ != seq!['l', 'e', 't']) by {
                        if text@ == seq!['l', 'e', 't'] {
                            assert(text@.len() == 3);
                            assert(text@[0] == 'l' && text@[1] == 'e' && text@[2] == 't');
                        }
                    }
                }
                assert(text@.len() == j - i);
                assert(text@[0] == code@[i as int] && is_name_start(code@[i as int]));
                assert forall|m: int| 0 <= m < text@.len() implies #[trigger] is_name_char(
                    text@[m],
                ) by {
                    assert(text@[m] == code@[i as int + m]);
                    if m > 0 {
                        assert(is_name_char(code@[i as int + m]));
                    }
                }
                assert(name_seq_wf(text@));
            }
            let tok = if is_dup {
                Token::Dup
            } else if is_let {
                Token::Let
            } else {
                Token::Name(text)
            };
            (Option::Some(tok), j)
        } else if is_digit_c(c) {
            let j = scan_num_end(code, i + 1);
            assert(forall|m: int| i as int <= m < j ==> is_digit(code@[m]));
            let tok = match digits_value(code, i, j) {
                Option::Some(x) => Token::Number(x),
                Option::None => Token::Error,
            };
            (Option::Some(tok), j)
        } else if u == 955 || u == 64 {
            (Option::Some(Token::Lambda), i + 1)
        } else if u == 36 {
            (Option::Some(Token::Dollar), i + 1)
        } else if u == 42 {
            (Option::Some(Token::Asterisk), i + 1)
        } else if u == 40 {
            (Option::Some(Token::LParen), i + 1)
        } else if u == 41 {
            (Option::Some(Token::RParen), i + 1)
        } else if u == 59 {
            (Option::Some(Token::Semicolon), i + 1)
        } else if u == 43 {
            (Option::Some(Token::Add), i + 1)
        } else if u == 45 {
            (Option::Some(Token::Sub), i + 1)
        } else if u == 47 {
            (Option::Some(Token::Div), i + 1)
        } else if u == 37 {
            (Option::Some(Token::Mod), i + 1)
        } else if u == 38 {
            (Option::Some(Token::And), i + 1)
        } else if u == 124 {
            (Option::Some(Token::Or), i + 1)
        } else if u == 94 {
            (Option::Some(Token::Xor), i + 1)
        } else if u == 60 {
            if i + 1 < n && code.get_char(i + 1) as u32 == 60 {
                (Option::Some(Token::Shl), i + 2)
            } else if i + 1 < n && code.get_char(i + 1) as u32 == 61 {
                (Option::Some(Token::Lte), i + 2)
            } else {
                (Option::Some(Token::Ltn), i + 1)
            }
        } else if u == 62 {
            if i + 1 < n && code.get_char(i + 1) as u32 == 62 {
                (Option::Some(Token::Shr), i + 2)
            } else if i + 1 < n && code.get_char(i + 1) as u32 == 61 {
                (Option::Some(Token::Gte), i + 2)
            } else {
                (Option::Some(Token::Gtn), i + 1)
            }
        } else if u == 61 {
            if i + 1 < n && code.get_char(i + 1) as u32 == 61 {
                (Option::Some(Token::EqualsEquals), i + 2)
            } else {
                (Option::Some(Token::Equals), i + 1)
            }
        } else if u == 33 {
            if i + 1 < n && code.get_char(i + 1) as u32 == 61 {
                (Option::Some(Token::NotEquals), i + 2)
            } else {
                (Option::Some(Token::Error), i + 1)
            }
        } else {
            (Option::Some(Token::Error), i + 1)
        };
        match tok {
            Option::None => {
                proof {
                    assert(spec_lex(code@, i as int) == spec_lex(code@, next as int));
                    assert(spec_lex_sp(code@, i as int) == spec_lex_sp(code@, next as int));
                }
            },
            Option::Some(t) => {
                let ghost tv = t@;
                let ghost sv = (i as int, next as int);
                out.push((t, Span { start: i, end: next }));
                proof {
                    assert(spec_lex(code@, i as int) == seq![tv] + spec_lex(code@, next as int));
                    assert(spec_lex_sp(code@, i as int) == seq![sv] + spec_lex_sp(
                        code@,
                        next as int,
                    ));
                    assert(tviews(out@) =~= tviews(pre).push(tv));
                    assert(tviews(pre).push(tv) + spec_lex(code@, next as int) =~= tviews(pre) + (
                    seq![tv] + spec_lex(code@, next as int)));
                    assert(tspans(out@) =~= tspans(pre).push(sv));
                    assert(tspans(pre).push(sv) + spec_lex_sp(code@, next as int) =~= tspans(pre)
                        + (seq![sv] + spec_lex_sp(code@, next as int)));
                }
            },
        }
        i = next;
    }
    proof {
        assert(spec_lex(code@, i as int) =~= Seq::<TokenV>::empty());
        assert(tviews(out@) + spec_lex(code@, i as int) =~= tviews(out@));
        assert(spec_lex_sp(code@, i as int) =~= Seq::<(int, int)>::empty());
        assert(tspans(out@) + spec_lex_sp(code@, i as int) =~= tspans(out@));
    }
    out
}

} // verus!
