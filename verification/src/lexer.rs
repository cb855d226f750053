//! The tokenizer: scans C-subset source text into a sequence of tokens.
//!
//! The lexical grammar has three word-shaped classes (keywords, identifiers,
//! integer constants) and five single-character punctuation marks. Words are
//! matched as whole words: a run of word characters is taken maximally, so a
//! digit run immediately followed by a letter (as in `12ab`) is a lexical
//! error rather than a constant and an identifier.

use vstd::prelude::*;

verus! {

use vstd::string::StrSliceExecFns;
use vstd::string::StringExecFns;

/// A lexical token. `Identifier` and `Constant` carry the exact matched
/// substring; the other variants' lexemes are implied by the variant.
#[derive(Debug, PartialEq, Clone)]
pub enum Token {
    Identifier(String),
    Constant(String),
    IntKeyword,
    VoidKeyword,
    ReturnKeyword,
    OpenParen,
    CloseParen,
    OpenBrace,
    CloseBrace,
    Semicolon,
}

/// The mathematical model of a token: payloads are character sequences.
pub enum TokenModel {
    Identifier(Seq<char>),
    Constant(Seq<char>),
    IntKeyword,
    VoidKeyword,
    ReturnKeyword,
    OpenParen,
    CloseParen,
    OpenBrace,
    CloseBrace,
    Semicolon,
}

impl View for Token {
    type V = TokenModel;

    open spec fn view(&self) -> TokenModel {
        match self {
            Token::Identifier(s) => TokenModel::Identifier(s@),
            Token::Constant(s) => TokenModel::Constant(s@),
            Token::IntKeyword => TokenModel::IntKeyword,
            Token::VoidKeyword => TokenModel::VoidKeyword,
            Token::ReturnKeyword => TokenModel::ReturnKeyword,
            Token::OpenParen => TokenModel::OpenParen,
            Token::CloseParen => TokenModel::CloseParen,
            Token::OpenBrace => TokenModel::OpenBrace,
            Token::CloseBrace => TokenModel::CloseBrace,
            Token::Semicolon => TokenModel::Semicolon,
        }
    }
}

/// The model of a token vector: the sequence of the tokens' models.
pub open spec fn tokens_model(ts: Seq<Token>) -> Seq<TokenModel> {
    ts.map_values(|t: Token| t@)
}

/// A lexical error: some suffix of the trimmed input matches no rule.
/// `remainder` holds the unrecognized text, from the point of failure to
/// the (whitespace-trimmed) end of the input.
#[derive(Debug, PartialEq, Clone)]
pub struct LexError {
    pub remainder: String,
}

/// Whitespace: the characters the tokenizer skips between tokens. This is
/// the Unicode white-space set, the one `str::trim` goes by.
pub open spec fn is_space(c: char) -> bool {
    c == ' ' || c == '\t' || c == '\n' || c == '\r' || c == '\u{b}' || c == '\u{c}'
        || c == '\u{85}' || c == '\u{a0}' || c == '\u{1680}' || ('\u{2000}' <= c && c
        <= '\u{200a}') || c == '\u{2028}' || c == '\u{2029}' || c == '\u{202f}' || c == '\u{205f}'
        || c == '\u{3000}'
}

/// An ASCII decimal digit.
pub open spec fn is_digit(c: char) -> bool {
    '0' <= c && c <= '9'
}

/// A character that may start an identifier or keyword: a letter or `_`.
pub open spec fn is_word_start(c: char) -> bool {
    ('a' <= c && c <= 'z') || ('A' <= c && c <= 'Z') || c == '_'
}

/// A character that may continue a word: a letter, digit or `_`.
pub open spec fn is_word_char(c: char) -> bool {
    is_word_start(c) || is_digit(c)
}

/// One of the five punctuation characters of the grammar.
pub open spec fn is_punct(c: char) -> bool {
    c == '(' || c == ')' || c == '{' || c == '}' || c == ';'
}

/// The token a punctuation character denotes.
pub open spec fn punct_model(c: char) -> TokenModel {
    if c == '(' {
        TokenModel::OpenParen
    } else if c == ')' {
        TokenModel::CloseParen
    } else if c == '{' {
        TokenModel::OpenBrace
    } else if c == '}' {
        TokenModel::CloseBrace
    } else {
        TokenModel::Semicolon
    }
}

/// Length of the maximal prefix of `s` made of whitespace characters.
pub open spec fn space_run(s: Seq<char>) -> nat
    decreases s.len(),
{
    if s.len() > 0 && is_space(s[0]) {
        1 + space_run(s.drop_first())
    } else {
        0
    }
}

/// Length of the maximal suffix of `s` made of whitespace characters.
pub open spec fn space_run_rev(s: Seq<char>) -> nat
    decreases s.len(),
{
    if s.len() > 0 && is_space(s.last()) {
        1 + space_run_rev(s.drop_last())
    } else {
        0
    }
}

/// Length of the maximal prefix of `s` made of word characters.
pub open spec fn word_run(s: Seq<char>) -> nat
    decreases s.len(),
{
    if s.len() > 0 && is_word_char(s[0]) {
        1 + word_run(s.drop_first())
    } else {
        0
    }
}

/// Length of the maximal prefix of `s` made of digits.
pub open spec fn digit_run(s: Seq<char>) -> nat
    decreases s.len(),
{
    if s.len() > 0 && is_digit(s[0]) {
        1 + digit_run(s.drop_first())
    } else {
        0
    }
}

/// The input with leading and trailing whitespace removed.
pub open spec fn spec_trim(s: Seq<char>) -> Seq<char> {
    let a = space_run(s) as int;
    let b = s.len() - space_run_rev(s) as int;
    if a <= b {
        s.subrange(a, b)
    } else {
        Seq::<char>::empty()
    }
}

/// Keyword-versus-identifier disambiguation: a word that equals a reserved
/// word denotes that keyword; every other word is an identifier. This policy
/// applies to every matched word, so no reserved word can ever come out as an
/// `Identifier` token.
pub open spec fn spec_classify(w: Seq<char>) -> TokenModel {
    if w == "int"@ {
        TokenModel::IntKeyword
    } else if w == "void"@ {
        TokenModel::VoidKeyword
    } else if w == "return"@ {
        TokenModel::ReturnKeyword
    } else {
        TokenModel::Identifier(w)
    }
}

/// The lexical grammar itself: the tokens of `s`, or the unrecognized
/// suffix of `s` on a lexical error.
///
/// At each step the scanner skips whitespace; a word character opens a
/// maximal word run, classified as keyword or identifier; a digit opens a
/// maximal digit run, which must end at a word boundary (a digit run
/// directly followed by a word character is an error); a punctuation
/// character stands for itself; any other character is an error. The error
/// payload is the whole remaining suffix, from the failing position on.
pub open spec fn spec_lex(s: Seq<char>) -> Result<Seq<TokenModel>, Seq<char>>
    decreases s.len(),
{
    if s.len() == 0 {
        Ok(Seq::<TokenModel>::empty())
    } else if is_space(s[0]) {
        spec_lex(s.drop_first())
    } else if is_word_start(s[0]) {
        let e = word_run(s) as int;
        proof {
            lemma_word_run_bounds(s);
        }
        match spec_lex(s.skip(e)) {
            Ok(rest) => Ok(seq![spec_classify(s.subrange(0, e))] + rest),
            Err(r) => Err(r),
        }
    } else if is_digit(s[0]) {
        let e = digit_run(s) as int;
        proof {
            lemma_digit_run_bounds(s);
        }
        if e < s.len() && is_word_char(s[e]) {
            Err(s)
        } else {
            match spec_lex(s.skip(e)) {
                Ok(rest) => Ok(seq![TokenModel::Constant(s.subrange(0, e))] + rest),
                Err(r) => Err(r),
            }
        }
    } else if is_punct(s[0]) {
        match spec_lex(s.drop_first()) {
            Ok(rest) => Ok(seq![punct_model(s[0])] + rest),
            Err(r) => Err(r),
        }
    } else {
        Err(s)
    }
}

pub proof fn lemma_space_run_bounds(s: Seq<char>)
    ensures
        space_run(s) <= s.len(),
        forall|k: int| 0 <= k < space_run(s) ==> is_space(s[k]),
        space_run(s) == s.len() || !is_space(s[space_run(s) as int]),
    decreases s.len(),
{
    if s.len() > 0 && is_space(s[0]) {
        lemma_space_run_bounds(s.drop_first());
        assert forall|k: int| 0 <= k < space_run(s) implies is_space(s[k]) by {
            if k > 0 {
                assert(s.drop_first()[k - 1] == s[k]);
            }
        }
        if space_run(s) < s.len() {
            assert(s.drop_first()[space_run(s) as int - 1] == s[space_run(s) as int]);
        }
    }
}

pub proof fn lemma_space_run_unique(s: Seq<char>, e: int)
    requires
        0 <= e <= s.len(),
        forall|k: int| 0 <= k < e ==> is_space(s[k]),
        e == s.len() || !is_space(s[e]),
    ensures
        space_run(s) == e,
    decreases s.len(),
{
    if e == 0 {
    } else {
        assert(is_space(s[0]));
        assert forall|k: int| 0 <= k < e - 1 implies is_space(s.drop_first()[k]) by {
            assert(s.drop_first()[k] == s[k + 1]);
        }
        if e < s.len() {
            assert(s.drop_first()[e - 1] == s[e]);
        }
        lemma_space_run_unique(s.drop_first(), e - 1);
    }
}

pub proof fn lemma_space_run_rev_bounds(s: Seq<char>)
    ensures
        space_run_rev(s) <= s.len(),
        forall|k: int| s.len() - space_run_rev(s) <= k < s.len() ==> is_space(s[k]),
        space_run_rev(s) == s.len() || !is_space(s[s.len() - space_run_rev(s) - 1]),
    decreases s.len(),
{
    if s.len() > 0 && is_space(s.last()) {
        lemma_space_run_rev_bounds(s.drop_last());
        assert forall|k: int| s.len() - space_run_rev(s) <= k < s.len() implies is_space(
            s[k],
        ) by {
            if k < s.len() - 1 {
                assert(s.drop_last()[k] == s[k]);
            }
        }
        if space_run_rev(s) < s.len() {
            assert(s.drop_last()[s.len() - space_run_rev(s) as int - 1] == s[s.len()
                - space_run_rev(s) as int - 1]);
        }
    }
}

pub proof fn lemma_space_run_rev_unique(s: Seq<char>, e: int)
    requires
        0 <= e <= s.len(),
        forall|k: int| s.len() - e <= k < s.len() ==> is_space(s[k]),
        e == s.len() || !is_space(s[s.len() - e - 1]),
    ensures
        space_run_rev(s) == e,
    decreases s.len(),
{
    if e == 0 {
    } else {
        assert(is_space(s.last()));
        assert forall|k: int| s.drop_last().len() - (e - 1) <= k < s.drop_last().len() implies
            is_space(s.drop_last()[k]) by {
            assert(s.drop_last()[k] == s[k]);
        }
        if e < s.len() {
            assert(s.drop_last()[s.drop_last().len() - (e - 1) - 1] == s[s.len() - e - 1]);
        }
        lemma_space_run_rev_unique(s.drop_last(), e - 1);
    }
}

pub proof fn lemma_word_run_bounds(s: Seq<char>)
    ensures
        word_run(s) <= s.len(),
        forall|k: int| 0 <= k < word_run(s) ==> is_word_char(s[k]),
        word_run(s) == s.len() || !is_word_char(s[word_run(s) as int]),
    decreases s.len(),
{
    if s.len() > 0 && is_word_char(s[0]) {
        lemma_word_run_bounds(s.drop_first());
        assert forall|k: int| 0 <= k < word_run(s) implies is_word_char(s[k]) by {
            if k > 0 {
                assert(s.drop_first()[k - 1] == s[k]);
            }
        }
        if word_run(s) < s.len() {
            assert(s.drop_first()[word_run(s) as int - 1] == s[word_run(s) as int]);
        }
    }
}

pub proof fn lemma_word_run_unique(s: Seq<char>, e: int)
    requires
        0 <= e <= s.len(),
        forall|k: int| 0 <= k < e ==> is_word_char(s[k]),
        e == s.len() || !is_word_char(s[e]),
    ensures
        word_run(s) == e,
    decreases s.len(),
{
    if e == 0 {
    } else {
        assert(is_word_char(s[0]));
        assert forall|k: int| 0 <= k < e - 1 implies is_word_char(s.drop_first()[k]) by {
            assert(s.drop_first()[k] == s[k + 1]);
        }
        if e < s.len() {
            assert(s.drop_first()[e - 1] == s[e]);
        }
        lemma_word_run_unique(s.drop_first(), e - 1);
    }
}

pub proof fn lemma_digit_run_bounds(s: Seq<char>)
    ensures
        digit_run(s) <= s.len(),
        forall|k: int| 0 <= k < digit_run(s) ==> is_digit(s[k]),
        digit_run(s) == s.len() || !is_digit(s[digit_run(s) as int]),
    decreases s.len(),
{
    if s.len() > 0 && is_digit(s[0]) {
        lemma_digit_run_bounds(s.drop_first());
        assert forall|k: int| 0 <= k < digit_run(s) implies is_digit(s[k]) by {
            if k > 0 {
                assert(s.drop_first()[k - 1] == s[k]);
            }
        }
        if digit_run(s) < s.len() {
            assert(s.drop_first()[digit_run(s) as int - 1] == s[digit_run(s) as int]);
        }
    }
}

pub proof fn lemma_digit_run_unique(s: Seq<char>, e: int)
    requires
        0 <= e <= s.len(),
        forall|k: int| 0 <= k < e ==> is_digit(s[k]),
        e == s.len() || !is_digit(s[e]),
    ensures
        digit_run(s) == e,
    decreases s.len(),
{
    if e == 0 {
    } else {
        assert(is_digit(s[0]));
        assert forall|k: int| 0 <= k < e - 1 implies is_digit(s.drop_first()[k]) by {
            assert(s.drop_first()[k] == s[k + 1]);
        }
        if e < s.len() {
            assert(s.drop_first()[e - 1] == s[e]);
        }
        lemma_digit_run_unique(s.drop_first(), e - 1);
    }
}

/// Runtime test for `is_space`.
fn is_space_char(c: char) -> (r: bool)
    ensures
        r == is_space(c),
{
    let u = c as u32;
    c == ' ' || c == '\t' || c == '\n' || c == '\r' || c == '\u{b}' || c == '\u{c}'
        || c == '\u{85}' || c == '\u{a0}' || c == '\u{1680}' || (('\u{2000}' as u32) <= u && u
        <= ('\u{200a}' as u32)) || c == '\u{2028}' || c == '\u{2029}' || c == '\u{202f}' || c
        == '\u{205f}' || c == '\u{3000}'
}

/// Runtime test for `is_digit`.
fn is_digit_char(c: char) -> (r: bool)
    ensures
        r == is_digit(c),
{
    let u = c as u32;
    ('0' as u32) <= u && u <= ('9' as u32)
}

/// Runtime test for `is_word_start`.
fn is_word_start_char(c: char) -> (r: bool)
    ensures
        r == is_word_start(c),
{
    let u = c as u32;
    (('a' as u32) <= u && u <= ('z' as u32)) || (('A' as u32) <= u && u <= ('Z' as u32)) || c
        == '_'
}

/// Runtime test for `is_word_char`.
fn is_word_char_exec(c: char) -> (r: bool)
    ensures
        r == is_word_char(c),
{
    is_word_start_char(c) || is_digit_char(c)
}

/// The characters of `s`, as a vector that can be indexed in place.
fn str_to_chars(s: &str) -> (v: Vec<char>)
    ensures
        v@ == s@,
{
    let n = s.unicode_len();
    let mut v: Vec<char> = Vec::new();
    let mut k: usize = 0;
    while k < n
        invariant
            n == s@.len(),
            k == v@.len() <= n,
            forall|m: int| 0 <= m < k ==> v@[m] == s@[m],
        decreases n - k,
    {
        v.push(s.get_char(k));
        k += 1;
    }
    proof {
        assert(v@ =~= s@);
    }
    v
}

/// The token for a matched word: the keyword it spells, or an identifier.
fn classify_word(lex: &str) -> (t: Token)
    ensures
        t@ == spec_classify(lex@),
{
    let n = lex.unicode_len();
    if n == 3 && lex.get_char(0) == 'i' && lex.get_char(1) == 'n' && lex.get_char(2) == 't' {
        proof {
            reveal_strlit("int");
            assert(lex@ =~= "int"@);
        }
        Token::IntKeyword
    } else if n == 4 && lex.get_char(0) == 'v' && lex.get_char(1) == 'o' && lex.get_char(2) == 'i'
        && lex.get_char(3) == 'd' {
        proof {
            reveal_strlit("int");
            reveal_strlit("void");
            assert(lex@ =~= "void"@);
        }
        Token::VoidKeyword
    } else if n == 6 && lex.get_char(0) == 'r' && lex.get_char(1) == 'e' && lex.get_char(2) == 't'
        && lex.get_char(3) == 'u' && lex.get_char(4) == 'r' && lex.get_char(5) == 'n' {
        proof {
            reveal_strlit("int");
            reveal_strlit("void");
            reveal_strlit("return");
            assert(lex@ =~= "return"@);
        }
        Token::ReturnKeyword
    } else {
        proof {
            reveal_strlit("int");
            reveal_strlit("void");
            reveal_strlit("return");
        }
        Token::Identifier(String::from_str(lex))
    }
}

/// The outcome of a scan that has already emitted the tokens `acc` and
/// still has the suffix `s` in front of it.
pub open spec fn lex_cont(acc: Seq<TokenModel>, s: Seq<char>) -> Result<
    Seq<TokenModel>,
    Seq<char>,
> {
    match spec_lex(s) {
        Ok(ts) => Ok(acc + ts),
        Err(r) => Err(r),
    }
}

/// Emitting one token keeps the scan's outcome: if lexing `s` prepends `t`
/// to the tokens of the shorter suffix `s2`, then the accumulated result is
/// unchanged by moving `t` into the accumulator.
proof fn lemma_cont_token(acc: Seq<TokenModel>, t: TokenModel, s: Seq<char>, s2: Seq<char>)
    requires
        spec_lex(s) == (match spec_lex(s2) {
            Ok(rest) => Ok::<Seq<TokenModel>, Seq<char>>(seq![t] + rest),
            Err(r) => Err::<Seq<TokenModel>, Seq<char>>(r),
        }),
    ensures
        lex_cont(acc, s) == lex_cont(acc.push(t), s2),
{
    match spec_lex(s2) {
        Ok(rest) => {
            assert(acc + (seq![t] + rest) =~= acc.push(t) + rest);
        },
        Err(_) => {},
    }
}

/// The tokenizer. The grammar's rule set is fixed, so a tokenizer carries no
/// state; one instance may be reused across any number of `tokenize` calls.
pub struct Tokenizer {}

impl Tokenizer {
    /// Builds a tokenizer for the fixed C-subset rule set.
    pub fn new() -> (t: Tokenizer) {
        Tokenizer {}
    }

    /// Scans `input` into its token sequence, or reports the suffix of the
    /// trimmed input at which no rule matches. The result is exactly what
    /// the lexical grammar `spec_lex` assigns to the whitespace-trimmed
    /// input, so equal inputs always give equal results.
    pub fn tokenize(&self, input: &str) -> (r: Result<Vec<Token>, LexError>)
        ensures
            (match r {
                Ok(tokens) => spec_lex(spec_trim(input@)) == Ok::<Seq<TokenModel>, Seq<char>>(
                    tokens_model(tokens@),
                ),
                Err(e) => spec_lex(spec_trim(input@)) == Err::<Seq<TokenModel>, Seq<char>>(
                    e.remainder@,
                ),
            }),
    {
        let cs = str_to_chars(input);
        let n = cs.len();
        let mut a: usize = 0;
        while a < n && is_space_char(cs[a])
            invariant
                cs@ == input@,
                n == cs@.len(),
                a <= n,
                forall|k: int| 0 <= k < a ==> is_space(cs@[k]),
            decreases n - a,
        {
            a += 1;
        }
        let mut b: usize = n;
        while b > 0 && is_space_char(cs[b - 1])
            invariant
                cs@ == input@,
                n == cs@.len(),
                b <= n,
                forall|k: int| b <= k < n ==> is_space(cs@[k]),
            decreases b,
        {
            b -= 1;
        }
        proof {
            lemma_space_run_unique(cs@, a as int);
            lemma_space_run_rev_unique(cs@, n - b as int);
        }
        if a >= b {
            proof {
                if a <= b {
                    assert(spec_trim(input@) =~= Seq::<char>::empty());
                }
                assert(tokens_model(Seq::<Token>::empty()) =~= Seq::<TokenModel>::empty());
            }
            return Ok(Vec::new());
        }
        let mut toks: Vec<Token> = Vec::new();
        let mut i: usize = a;
        proof {
            assert(spec_trim(input@) == cs@.subrange(a as int, b as int));
            let t = spec_trim(input@);
            if spec_lex(t) is Ok {
                assert(Seq::<TokenModel>::empty() + spec_lex(t)->Ok_0 =~= spec_lex(t)->Ok_0);
            }
            assert(tokens_model(Seq::<Token>::empty()) =~= Seq::<TokenModel>::empty());
        }
        while i < b
            invariant
                cs@ == input@,
                n == cs@.len(),
                a <= i <= b <= n,
                spec_trim(input@) == cs@.subrange(a as int, b as int),
                spec_lex(spec_trim(input@)) == lex_cont(
                    tokens_model(toks@),
                    cs@.subrange(i as int, b as int),
                ),
            decreases b - i,
        {
            let ghost suf = cs@.subrange(i as int, b as int);
            let c = cs[i];
            proof {
                assert(suf[0] == cs@[i as int]);
            }
            if is_space_char(c) {
                proof {
                    assert(suf.drop_first() =~= cs@.subrange(i as int + 1, b as int));
                }
                i += 1;
            } else if is_word_start_char(c) {
                let mut j = i + 1;
                while j < b && is_word_char_exec(cs[j])
                    invariant
                        n == cs@.len(),
                        i < j <= b <= n,
                        forall|k: int| i <= k < j ==> is_word_char(cs@[k]),
                    decreases b - j,
                {
                    j += 1;
                }
                let lex = input.substring_char(i, j);
                let tok = classify_word(lex);
                proof {
                    assert forall|k: int| 0 <= k < j - i implies is_word_char(suf[k]) by {
                        assert(suf[k] == cs@[i + k]);
                    }
                    if j < b {
                        assert(suf[j - i] == cs@[j as int]);
                    }
                    lemma_word_run_unique(suf, j - i);
                    assert(suf.subrange(0, j - i) =~= cs@.subrange(i as int, j as int));
                    assert(suf.skip(j - i) =~= cs@.subrange(j as int, b as int));
                    assert(lex@ == suf.subrange(0, j - i));
                    assert(spec_lex(suf) == (match spec_lex(cs@.subrange(j as int, b as int)) {
                        Ok(rest) => Ok::<Seq<TokenModel>, Seq<char>>(
                            seq![spec_classify(lex@)] + rest,
                        ),
                        Err(r) => Err::<Seq<TokenModel>, Seq<char>>(r),
                    }));
                    lemma_cont_token(
                        tokens_model(toks@),
                        tok@,
                        suf,
                        cs@.subrange(j as int, b as int),
                    );
                    assert(tokens_model(toks@.push(tok)) =~= tokens_model(toks@).push(tok@));
                }
                toks.push(tok);
                i = j;
            } else if is_digit_char(c) {
                let mut j = i + 1;
                while j < b && is_digit_char(cs[j])
                    invariant
                        n == cs@.len(),
                        i < j <= b <= n,
                        forall|k: int| i <= k < j ==> is_digit(cs@[k]),
                    decreases b - j,
                {
                    j += 1;
                }
                proof {
                    assert forall|k: int| 0 <= k < j - i implies is_digit(suf[k]) by {
                        assert(suf[k] == cs@[i + k]);
                    }
                    if j < b {
                        assert(suf[j - i] == cs@[j as int]);
                    }
                    lemma_digit_run_unique(suf, j - i);
                }
                if j < b && is_word_char_exec(cs[j]) {
                    let rem = input.substring_char(i, b);
                    proof {
                        assert(suf[j - i] == cs@[j as int]);
                        assert(spec_lex(suf) == Err::<Seq<TokenModel>, Seq<char>>(suf));
                        assert(rem@ == suf);
                    }
                    return Err(LexError { remainder: String::from_str(rem) });
                }
                let lex = input.substring_char(i, j);
                let tok = Token::Constant(String::from_str(lex));
                proof {
                    assert(suf.subrange(0, j - i) =~= cs@.subrange(i as int, j as int));
                    assert(suf.skip(j - i) =~= cs@.subrange(j as int, b as int));
                    assert(lex@ == suf.subrange(0, j - i));
                    if j < b {
                        assert(suf[j - i] == cs@[j as int]);
                    }
                    assert(spec_lex(suf) == (match spec_lex(cs@.subrange(j as int, b as int)) {
                        Ok(rest) => Ok::<Seq<TokenModel>, Seq<char>>(
                            seq![TokenModel::Constant(lex@)] + rest,
                        ),
                        Err(r) => Err::<Seq<TokenModel>, Seq<char>>(r),
                    }));
                    lemma_cont_token(
                        tokens_model(toks@),
                        tok@,
                        suf,
                        cs@.subrange(j as int, b as int),
                    );
                    assert(tokens_model(toks@.push(tok)) =~= tokens_model(toks@).push(tok@));
                }
                toks.push(tok);
                i = j;
            } else {
                let ptok: Option<Token> = if c == '(' {
                    Some(Token::OpenParen)
                } else if c == ')' {
                    Some(Token::CloseParen)
                } else if c == '{' {
                    Some(Token::OpenBrace)
                } else if c == '}' {
                    Some(Token::CloseBrace)
                } else if c == ';' {
                    Some(Token::Semicolon)
                } else {
                    None
                };
                match ptok {
                    Some(tok) => {
                        proof {
                            assert(suf.drop_first() =~= cs@.subrange(i as int + 1, b as int));
                            assert(tok@ == punct_model(suf[0]));
                            assert(spec_lex(suf) == (match spec_lex(
                                cs@.subrange(i as int + 1, b as int),
                            ) {
                                Ok(rest) => Ok::<Seq<TokenModel>, Seq<char>>(
                                    seq![punct_model(suf[0])] + rest,
                                ),
                                Err(r) => Err::<Seq<TokenModel>, Seq<char>>(r),
                            }));
                            lemma_cont_token(
                                tokens_model(toks@),
                                tok@,
                                suf,
                                cs@.subrange(i as int + 1, b as int),
                            );
                            assert(tokens_model(toks@.push(tok)) =~= tokens_model(toks@).push(
                                tok@,
                            ));
                        }
                        toks.push(tok);
                        i += 1;
                    },
                    None => {
                        let rem = input.substring_char(i, b);
                        proof {
                            assert(spec_lex(suf) == Err::<Seq<TokenModel>, Seq<char>>(suf));
                            assert(rem@ == suf);
                        }
                        return Err(LexError { remainder: String::from_str(rem) });
                    },
                }
            }
        }
        proof {
            assert(cs@.subrange(b as int, b as int) =~= Seq::<char>::empty());
            assert(tokens_model(toks@) + Seq::<TokenModel>::empty() =~= tokens_model(toks@));
        }
        Ok(toks)
    }
}

/// A word-shaped character sequence: a letter or underscore followed by
/// letters, digits and underscores.
pub open spec fn is_word(w: Seq<char>) -> bool {
    w.len() > 0 && is_word_start(w[0]) && (forall|k: int| 0 <= k < w.len() ==> is_word_char(w[k]))
}

/// A nonempty run of decimal digits.
pub open spec fn is_number(w: Seq<char>) -> bool {
    w.len() > 0 && (forall|k: int| 0 <= k < w.len() ==> is_digit(w[k]))
}

/// Well-formedness of a token: an identifier payload is word-shaped and is
/// never a reserved word, a constant payload is a nonempty digit run.
pub open spec fn wf_token(t: TokenModel) -> bool {
    match t {
        TokenModel::Identifier(w) => is_word(w) && w != "int"@ && w != "void"@ && w != "return"@,
        TokenModel::Constant(d) => is_number(d),
        _ => true,
    }
}

/// An input of nothing but whitespace (the empty input included) scans to
/// the empty token sequence, with no error.
pub proof fn lemma_whitespace_only_input(s: Seq<char>)
    requires
        forall|k: int| 0 <= k < s.len() ==> is_space(s[k]),
    ensures
        spec_lex(spec_trim(s)) == Ok::<Seq<TokenModel>, Seq<char>>(Seq::<TokenModel>::empty()),
{
    lemma_space_run_unique(s, s.len() as int);
    lemma_space_run_rev_unique(s, s.len() as int);
    if s.len() == 0 {
        assert(spec_trim(s) =~= Seq::<char>::empty());
    }
}

/// Every token of a successful scan is well formed. In particular a lexeme
/// that spells a reserved word always comes out as the keyword token, never
/// as an `Identifier`.
pub proof fn lemma_tokens_wf(s: Seq<char>)
    requires
        spec_lex(s) is Ok,
    ensures
        forall|k: int|
            0 <= k < spec_lex(s)->Ok_0.len() ==> #[trigger] wf_token(spec_lex(s)->Ok_0[k]),
    decreases s.len(),
{
    let ts = spec_lex(s)->Ok_0;
    if s.len() == 0 {
    } else if is_space(s[0]) {
        lemma_tokens_wf(s.drop_first());
    } else if is_word_start(s[0]) {
        let e = word_run(s) as int;
        lemma_word_run_bounds(s);
        let w = s.subrange(0, e);
        lemma_tokens_wf(s.skip(e));
        let rest = spec_lex(s.skip(e))->Ok_0;
        assert(ts == seq![spec_classify(w)] + rest);
        assert forall|k: int| 0 <= k < ts.len() implies #[trigger] wf_token(ts[k]) by {
            if k == 0 {
                assert(ts[0] == spec_classify(w));
                assert(is_word(w));
            } else {
                assert(ts[k] == rest[k - 1]);
            }
        }
    } else if is_digit(s[0]) {
        let e = digit_run(s) as int;
        lemma_digit_run_bounds(s);
        if e < s.len() && is_word_char(s[e]) {
            assert(false);
        } else {
            let d = s.subrange(0, e);
            lemma_tokens_wf(s.skip(e));
            let rest = spec_lex(s.skip(e))->Ok_0;
            assert(ts == seq![TokenModel::Constant(d)] + rest);
            assert forall|k: int| 0 <= k < ts.len() implies #[trigger] wf_token(ts[k]) by {
                if k == 0 {
                    assert(ts[0] == TokenModel::Constant(d));
                    assert(is_number(d));
                } else {
                    assert(ts[k] == rest[k - 1]);
                }
            }
        }
    } else if is_punct(s[0]) {
        lemma_tokens_wf(s.drop_first());
        let rest = spec_lex(s.drop_first())->Ok_0;
        assert(ts == seq![punct_model(s[0])] + rest);
        assert forall|k: int| 0 <= k < ts.len() implies #[trigger] wf_token(ts[k]) by {
            if k > 0 {
                assert(ts[k] == rest[k - 1]);
            }
        }
    } else {
        assert(false);
    }
}

/// The source text a token stands for.
pub open spec fn lexeme(t: TokenModel) -> Seq<char> {
    match t {
        TokenModel::Identifier(w) => w,
        TokenModel::Constant(d) => d,
        TokenModel::IntKeyword => "int"@,
        TokenModel::VoidKeyword => "void"@,
        TokenModel::ReturnKeyword => "return"@,
        TokenModel::OpenParen => "("@,
        TokenModel::CloseParen => ")"@,
        TokenModel::OpenBrace => "{"@,
        TokenModel::CloseBrace => "}"@,
        TokenModel::Semicolon => ";"@,
    }
}

/// The concatenation of the lexemes of `ts`, in order.
pub open spec fn lexemes(ts: Seq<TokenModel>) -> Seq<char>
    decreases ts.len(),
{
    if ts.len() == 0 {
        Seq::<char>::empty()
    } else {
        lexeme(ts[0]) + lexemes(ts.drop_first())
    }
}

/// `s` with every whitespace character removed.
pub open spec fn strip_spaces(s: Seq<char>) -> Seq<char>
    decreases s.len(),
{
    if s.len() == 0 {
        Seq::<char>::empty()
    } else if is_space(s[0]) {
        strip_spaces(s.drop_first())
    } else {
        seq![s[0]] + strip_spaces(s.drop_first())
    }
}

/// Classification never changes the text: the lexeme of the token a word is
/// classified to is that word itself.
pub proof fn lemma_classify_lexeme(w: Seq<char>)
    ensures
        lexeme(spec_classify(w)) == w,
{
}

proof fn lemma_strip_prefix(s: Seq<char>, e: int)
    requires
        0 <= e <= s.len(),
        forall|k: int| 0 <= k < e ==> !is_space(s[k]),
    ensures
        strip_spaces(s) == s.subrange(0, e) + strip_spaces(s.skip(e)),
    decreases e,
{
    if e == 0 {
        assert(s.skip(0) =~= s);
        assert(s.subrange(0, 0) + strip_spaces(s) =~= strip_spaces(s));
    } else {
        assert(!is_space(s[0]));
        assert forall|k: int| 0 <= k < e - 1 implies !is_space(s.drop_first()[k]) by {
            assert(s.drop_first()[k] == s[k + 1]);
        }
        lemma_strip_prefix(s.drop_first(), e - 1);
        assert(s.drop_first().skip(e - 1) =~= s.skip(e));
        assert(seq![s[0]] + (s.drop_first().subrange(0, e - 1) + strip_spaces(s.skip(e))) =~= (
        s.subrange(0, e) + strip_spaces(s.skip(e))));
    }
}

proof fn lemma_strip_all_space(s: Seq<char>)
    requires
        forall|k: int| 0 <= k < s.len() ==> is_space(s[k]),
    ensures
        strip_spaces(s) == Seq::<char>::empty(),
    decreases s.len(),
{
    if s.len() > 0 {
        assert forall|k: int| 0 <= k < s.drop_first().len() implies is_space(
            s.drop_first()[k],
        ) by {
            assert(s.drop_first()[k] == s[k + 1]);
        }
        lemma_strip_all_space(s.drop_first());
    }
}

proof fn lemma_strip_leading(s: Seq<char>, a: int)
    requires
        0 <= a <= s.len(),
        forall|k: int| 0 <= k < a ==> is_space(s[k]),
    ensures
        strip_spaces(s) == strip_spaces(s.skip(a)),
    decreases a,
{
    if a == 0 {
        assert(s.skip(0) =~= s);
    } else {
        assert(is_space(s[0]));
        assert forall|k: int| 0 <= k < a - 1 implies is_space(s.drop_first()[k]) by {
            assert(s.drop_first()[k] == s[k + 1]);
        }
        lemma_strip_leading(s.drop_first(), a - 1);
        assert(s.drop_first().skip(a - 1) =~= s.skip(a));
    }
}

proof fn lemma_strip_trailing(s: Seq<char>, b: int)
    requires
        0 <= b <= s.len(),
        forall|k: int| b <= k < s.len() ==> is_space(s[k]),
    ensures
        strip_spaces(s) == strip_spaces(s.subrange(0, b)),
    decreases s.len(),
{
    if s.len() == 0 {
        assert(s.subrange(0, 0) =~= s);
    } else if b == 0 {
        lemma_strip_all_space(s);
        assert(s.subrange(0, 0) =~= Seq::<char>::empty());
    } else {
        assert forall|k: int| b - 1 <= k < s.drop_first().len() implies is_space(
            s.drop_first()[k],
        ) by {
            assert(s.drop_first()[k] == s[k + 1]);
        }
        lemma_strip_trailing(s.drop_first(), b - 1);
        assert(s.drop_first().subrange(0, b - 1) =~= s.subrange(0, b).drop_first());
        if is_space(s[0]) {
            assert(s.subrange(0, b)[0] == s[0]);
        } else {
            assert(s.subrange(0, b)[0] == s[0]);
            assert(seq![s[0]] + strip_spaces(s.subrange(0, b).drop_first()) == strip_spaces(
                s.subrange(0, b),
            ));
        }
    }
}

/// Trimming removes only whitespace: the whitespace-stripped text of the
/// trimmed input is that of the input itself.
pub proof fn lemma_strip_trim(s: Seq<char>)
    ensures
        strip_spaces(spec_trim(s)) == strip_spaces(s),
{
    let a = space_run(s) as int;
    let rv = space_run_rev(s) as int;
    let b = s.len() - rv;
    lemma_space_run_bounds(s);
    lemma_space_run_rev_bounds(s);
    if a <= b {
        lemma_strip_leading(s, a);
        let t = s.skip(a);
        assert forall|k: int| b - a <= k < t.len() implies is_space(t[k]) by {
            assert(t[k] == s[a + k]);
        }
        lemma_strip_trailing(t, b - a);
        assert(t.subrange(0, b - a) =~= s.subrange(a, b));
    } else {
        assert forall|k: int| 0 <= k < s.len() implies is_space(s[k]) by {
            if k < a {
            } else {
                assert(k >= s.len() - rv);
            }
        }
        lemma_strip_all_space(s);
        assert(spec_trim(s) == Seq::<char>::empty());
    }
}

/// Reconstruction: the lexemes of a successful scan, concatenated in order,
/// spell the scanned text with its whitespace removed.
pub proof fn lemma_lexemes_reconstruct(s: Seq<char>)
    requires
        spec_lex(s) is Ok,
    ensures
        lexemes(spec_lex(s)->Ok_0) == strip_spaces(s),
    decreases s.len(),
{
    let ts = spec_lex(s)->Ok_0;
    if s.len() == 0 {
    } else if is_space(s[0]) {
        lemma_lexemes_reconstruct(s.drop_first());
    } else if is_word_start(s[0]) {
        let e = word_run(s) as int;
        lemma_word_run_bounds(s);
        let w = s.subrange(0, e);
        lemma_lexemes_reconstruct(s.skip(e));
        let rest = spec_lex(s.skip(e))->Ok_0;
        assert(ts == seq![spec_classify(w)] + rest);
        assert((seq![spec_classify(w)] + rest).drop_first() =~= rest);
        assert(lexemes(ts) == lexeme(spec_classify(w)) + lexemes(rest));
        lemma_classify_lexeme(w);
        assert forall|k: int| 0 <= k < e implies !is_space(s[k]) by {
            assert(is_word_char(s[k]));
        }
        lemma_strip_prefix(s, e);
    } else if is_digit(s[0]) {
        let e = digit_run(s) as int;
        lemma_digit_run_bounds(s);
        if e < s.len() && is_word_char(s[e]) {
            assert(false);
        } else {
            let d = s.subrange(0, e);
            lemma_lexemes_reconstruct(s.skip(e));
            let rest = spec_lex(s.skip(e))->Ok_0;
            assert(ts == seq![TokenModel::Constant(d)] + rest);
            assert((seq![TokenModel::Constant(d)] + rest).drop_first() =~= rest);
            assert(lexemes(ts) == d + lexemes(rest));
            assert forall|k: int| 0 <= k < e implies !is_space(s[k]) by {
                assert(is_digit(s[k]));
            }
            lemma_strip_prefix(s, e);
        }
    } else if is_punct(s[0]) {
        lemma_lexemes_reconstruct(s.drop_first());
        let rest = spec_lex(s.drop_first())->Ok_0;
        assert(ts == seq![punct_model(s[0])] + rest);
        assert((seq![punct_model(s[0])] + rest).drop_first() =~= rest);
        assert(lexemes(ts) == lexeme(punct_model(s[0])) + lexemes(rest));
        if s[0] == '(' {
            reveal_strlit("(");
            assert(lexeme(punct_model(s[0])) =~= seq![s[0]]);
        } else if s[0] == ')' {
            reveal_strlit(")");
            assert(lexeme(punct_model(s[0])) =~= seq![s[0]]);
        } else if s[0] == '{' {
            reveal_strlit("{");
            assert(lexeme(punct_model(s[0])) =~= seq![s[0]]);
        } else if s[0] == '}' {
            reveal_strlit("}");
            assert(lexeme(punct_model(s[0])) =~= seq![s[0]]);
        } else {
            reveal_strlit(";");
            assert(lexeme(punct_model(s[0])) =~= seq![s[0]]);
        }
        assert(strip_spaces(s) == seq![s[0]] + strip_spaces(s.drop_first()));
    } else {
        assert(false);
    }
}

/// Reconstruction stated of the whole `tokenize` contract: when the trimmed
/// input scans successfully, the concatenated lexemes spell the original
/// input with all whitespace removed.
pub proof fn lemma_tokens_reconstruct_input(s: Seq<char>)
    requires
        spec_lex(spec_trim(s)) is Ok,
    ensures
        lexemes(spec_lex(spec_trim(s))->Ok_0) == strip_spaces(s),
{
    lemma_lexemes_reconstruct(spec_trim(s));
    lemma_strip_trim(s);
}

} // verus!
