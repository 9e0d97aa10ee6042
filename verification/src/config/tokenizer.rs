//! Splits configuration text into words, braces and semicolons.
use vstd::prelude::*;
use crate::text::{is_whitespace, spec_is_whitespace};

verus! {

/// A lexical token of the configuration language.
#[derive(Debug, Clone, PartialEq)]
pub enum Token {
    Word(String),
    LBrace,
    RBrace,
    Semicolon,
}

/// The mathematical value of a [`Token`].
pub enum TokenView {
    Word(Seq<char>),
    LBrace,
    RBrace,
    Semicolon,
}

impl View for Token {
    type V = TokenView;

    open spec fn view(&self) -> TokenView {
        match self {
            Token::Word(w) => TokenView::Word(w@),
            Token::LBrace => TokenView::LBrace,
            Token::RBrace => TokenView::RBrace,
            Token::Semicolon => TokenView::Semicolon,
        }
    }
}

impl Token {
    /// A token equal to this one.
    pub fn duplicate(&self) -> (t: Token)
        ensures
            t@ == self@,
    {
        match self {
            Token::Word(w) => Token::Word(w.clone()),
            Token::LBrace => Token::LBrace,
            Token::RBrace => Token::RBrace,
            Token::Semicolon => Token::Semicolon,
        }
    }

    /// Whether two tokens are equal.
    pub fn same_as(&self, other: &Token) -> (b: bool)
        ensures
            b == (self@ == other@),
    {
        match (self, other) {
            (Token::Word(a), Token::Word(b)) => crate::text::str_equal(a.as_str(), b.as_str()),
            (Token::LBrace, Token::LBrace) => true,
            (Token::RBrace, Token::RBrace) => true,
            (Token::Semicolon, Token::Semicolon) => true,
            _ => false,
        }
    }
}

/// The views of a sequence of tokens.
pub open spec fn tokens_view(v: Seq<Token>) -> Seq<TokenView> {
    v.map_values(|t: Token| t@)
}

/// A character that ends a word and forms a token of its own.
pub open spec fn is_delimiter(c: char) -> bool {
    c == '{' || c == '}' || c == ';'
}

/// The tokens so far after ending the word under construction, if any.
pub open spec fn flush(toks: Seq<TokenView>, cur: Seq<char>) -> Seq<TokenView> {
    if cur.len() > 0 {
        toks.push(TokenView::Word(cur))
    } else {
        toks
    }
}

/// The state of the tokenizer after reading `s`: the finished tokens and the
/// word under construction.
pub open spec fn tokenize_state(s: Seq<char>) -> (Seq<TokenView>, Seq<char>)
    decreases s.len(),
{
    if s.len() == 0 {
        (seq![], seq![])
    } else {
        let (toks, cur) = tokenize_state(s.drop_last());
        let c = s.last();
        if c == '{' {
            (flush(toks, cur).push(TokenView::LBrace), seq![])
        } else if c == '}' {
            (flush(toks, cur).push(TokenView::RBrace), seq![])
        } else if c == ';' {
            (flush(toks, cur).push(TokenView::Semicolon), seq![])
        } else if spec_is_whitespace(c) {
            (flush(toks, cur), seq![])
        } else {
            (toks, cur.push(c))
        }
    }
}

/// The tokens of the text `s`.
pub open spec fn spec_tokenize(s: Seq<char>) -> Seq<TokenView> {
    flush(tokenize_state(s).0, tokenize_state(s).1)
}

/// Ends the word under construction: pushes it as a token if it is not empty.
fn push_word(tokens: &mut Vec<Token>, current: &mut String)
    ensures
        tokens_view(final(tokens)@) == flush(tokens_view(old(tokens)@), old(current)@),
        final(current)@ == Seq::<char>::empty(),
{
    if !current.as_str().is_empty() {
        let mut w = String::new();
        std::mem::swap(&mut w, current);
        tokens.push(Token::Word(w));
        assert(tokens_view(tokens@) =~= tokens_view(old(tokens)@).push(TokenView::Word(old(current)@)));
    } else {
        assert(current@ =~= Seq::<char>::empty());
    }
}

/// Splits `input` into tokens: `{`, `}` and `;` stand alone, whitespace
/// separates words, and every other run of characters is a word.
pub fn tokenize(input: &str) -> (tokens: Vec<Token>)
    ensures
        tokens_view(tokens@) == spec_tokenize(input@),
{
    let mut tokens: Vec<Token> = Vec::new();
    let mut current = String::new();
    for c in it: input.chars()
        invariant
            it.seq() == input@,
            tokens_view(tokens@) == tokenize_state(input@.take(it.index() as int)).0,
            current@ == tokenize_state(input@.take(it.index() as int)).1,
    {
        let ghost pre = input@.take(it.index() as int);
        proof {
            let next = input@.take(it.index() + 1);
            assert(next.drop_last() == pre);
            assert(next.last() == c);
        }
        if c == '{' {
            push_word(&mut tokens, &mut current);
            tokens.push(Token::LBrace);
        } else if c == '}' {
            push_word(&mut tokens, &mut current);
            tokens.push(Token::RBrace);
        } else if c == ';' {
            push_word(&mut tokens, &mut current);
            tokens.push(Token::Semicolon);
        } else if is_whitespace(c) {
            push_word(&mut tokens, &mut current);
        } else {
            crate::text::push_char(&mut current, c);
        }
        assert(tokens_view(tokens@) =~= tokenize_state(input@.take(it.index() + 1)).0);
    }
    proof {
        assert(input@.take(input@.len() as int) == input@);
    }
    push_word(&mut tokens, &mut current);
    tokens
}


/// A word of the tokenizer's output: not empty, and free of whitespace and
/// of the characters that form tokens of their own.
pub open spec fn clean_word(w: Seq<char>) -> bool {
    &&& w.len() > 0
    &&& forall|j: int| 0 <= j < w.len() ==> !spec_is_whitespace(#[trigger] w[j]) && !is_delimiter(w[j])
}

/// Every word among `toks` is clean.
pub open spec fn all_words_clean(toks: Seq<TokenView>) -> bool {
    forall|i: int| 0 <= i < toks.len() ==> (#[trigger] toks[i] matches TokenView::Word(w) ==> clean_word(w))
}

proof fn lemma_state_clean(s: Seq<char>)
    ensures
        all_words_clean(tokenize_state(s).0),
        tokenize_state(s).1.len() > 0 ==> clean_word(tokenize_state(s).1),
    decreases s.len(),
{
    if s.len() > 0 {
        lemma_state_clean(s.drop_last());
        let (toks, cur) = tokenize_state(s.drop_last());
        let c = s.last();
        assert(all_words_clean(flush(toks, cur)));
        if !is_delimiter(c) && !spec_is_whitespace(c) {
            let n = cur.push(c);
            assert forall|j: int| 0 <= j < n.len() implies !spec_is_whitespace(#[trigger] n[j])
                && !is_delimiter(n[j]) by {
                if j < cur.len() {
                    assert(n[j] == cur[j]);
                }
            }
        }
    }
}

/// The tokenizer's words are never empty, and never hold whitespace, a
/// brace or a semicolon.
pub proof fn law_words_are_clean(s: Seq<char>)
    ensures
        all_words_clean(spec_tokenize(s)),
{
    lemma_state_clean(s);
}

/// The tokens that a character that ends a word contributes of its own.
pub open spec fn separator_tokens(c: char) -> Seq<TokenView> {
    if c == '{' {
        seq![TokenView::LBrace]
    } else if c == '}' {
        seq![TokenView::RBrace]
    } else if c == ';' {
        seq![TokenView::Semicolon]
    } else {
        seq![]
    }
}

proof fn lemma_state_append(p: Seq<char>, b: Seq<char>)
    requires
        tokenize_state(p).1.len() == 0,
    ensures
        tokenize_state(p + b).0 == tokenize_state(p).0 + tokenize_state(b).0,
        tokenize_state(p + b).1 == tokenize_state(b).1,
    decreases b.len(),
{
    if b.len() == 0 {
        assert(p + b == p);
        assert(tokenize_state(p).0 + seq![] == tokenize_state(p).0);
    } else {
        assert((p + b).drop_last() == p + b.drop_last());
        assert((p + b).last() == b.last());
        lemma_state_append(p, b.drop_last());
        let t = tokenize_state(p).0;
        let (tb, cb) = tokenize_state(b.drop_last());
        assert(flush(t + tb, cb) == t + flush(tb, cb));
        assert((t + flush(tb, cb)).push(TokenView::LBrace) == t + flush(tb, cb).push(TokenView::LBrace));
        assert((t + flush(tb, cb)).push(TokenView::RBrace) == t + flush(tb, cb).push(TokenView::RBrace));
        assert((t + flush(tb, cb)).push(TokenView::Semicolon) == t + flush(tb, cb).push(TokenView::Semicolon));
    }
}

/// Whitespace, braces and semicolons end words: the tokens of `a`, a
/// separating character `c`, then `b` are the tokens of `a`, the token that
/// `c` stands for, if any, then the tokens of `b`.
pub proof fn law_tokenize_splits_at_separator(a: Seq<char>, c: char, b: Seq<char>)
    requires
        spec_is_whitespace(c) || is_delimiter(c),
    ensures
        spec_tokenize(a + seq![c] + b) == spec_tokenize(a) + separator_tokens(c) + spec_tokenize(b),
{
    let ac = a + seq![c];
    assert(ac.drop_last() == a);
    assert(ac.last() == c);
    let (ta, ca) = tokenize_state(a);
    assert(tokenize_state(ac).0 == flush(ta, ca) + separator_tokens(c));
    lemma_state_append(ac, b);
    let (tb, cb) = tokenize_state(b);
    assert(flush(flush(ta, ca) + separator_tokens(c) + tb, cb) == flush(ta, ca) + separator_tokens(c) + flush(tb, cb));
}


/// The amount of whitespace between tokens does not matter: doubling a
/// whitespace character leaves the tokens as they were.
pub proof fn law_extra_whitespace_is_ignored(a: Seq<char>, c: char, d: char, b: Seq<char>)
    requires
        spec_is_whitespace(c),
        spec_is_whitespace(d),
    ensures
        spec_tokenize(a + seq![c, d] + b) == spec_tokenize(a + seq![c] + b),
{
    law_tokenize_splits_at_separator(a, c, b);
    assert(a + seq![c, d] + b == a + seq![c] + (seq![d] + b));
    law_tokenize_splits_at_separator(a, c, seq![d] + b);
    assert(Seq::<char>::empty() + seq![d] + b == seq![d] + b);
    law_tokenize_splits_at_separator(Seq::empty(), d, b);
    assert(spec_tokenize(Seq::<char>::empty()) =~= Seq::<TokenView>::empty());
    assert(spec_tokenize(seq![d] + b) =~= spec_tokenize(b));
    assert(separator_tokens(c) =~= Seq::<TokenView>::empty());
}


proof fn lemma_state_of_clean_run(w: Seq<char>)
    requires
        forall|j: int| 0 <= j < w.len() ==> !spec_is_whitespace(#[trigger] w[j]) && !is_delimiter(w[j]),
    ensures
        tokenize_state(w).0 == Seq::<TokenView>::empty(),
        tokenize_state(w).1 == w,
    decreases w.len(),
{
    if w.len() > 0 {
        let v = w.drop_last();
        assert forall|j: int| 0 <= j < v.len() implies !spec_is_whitespace(#[trigger] v[j]) && !is_delimiter(v[j]) by {
            assert(v[j] == w[j]);
        }
        lemma_state_of_clean_run(v);
        assert(w.last() == w[w.len() - 1]);
        assert(v.push(w.last()) == w);
    } else {
        assert(w == Seq::<char>::empty());
    }
}

/// A run of characters without whitespace, braces or semicolons is one word
/// token that holds exactly that run.
pub proof fn law_clean_run_is_one_word(w: Seq<char>)
    requires
        clean_word(w),
    ensures
        spec_tokenize(w) == seq![TokenView::Word(w)],
{
    lemma_state_of_clean_run(w);
    assert(flush(Seq::<TokenView>::empty(), w) =~= seq![TokenView::Word(w)]);
}

} // verus!
