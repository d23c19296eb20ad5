use vstd::prelude::*;

verus! {

/// Characters that make up search tokens: ASCII letters and digits. Every
/// other character, whitespace and punctuation alike, delimits tokens.
pub open spec fn is_token_char(c: char) -> bool {
    ('a' <= c && c <= 'z') || ('A' <= c && c <= 'Z') || ('0' <= c && c <= '9')
}

/// Case folding for matching: ASCII uppercase letters map to lowercase,
/// everything else is unchanged.
pub open spec fn fold_char(c: char) -> char {
    if 'A' <= c && c <= 'Z' {
        (((c as u32) + 32) as u8) as char
    } else {
        c
    }
}

pub fn is_token_char_exec(c: char) -> (r: bool)
    ensures
        r == is_token_char(c),
{
    ('a' <= c && c <= 'z') || ('A' <= c && c <= 'Z') || ('0' <= c && c <= '9')
}

pub fn fold_char_exec(c: char) -> (r: char)
    ensures
        r == fold_char(c),
{
    if 'A' <= c && c <= 'Z' {
        (((c as u32) + 32) as u8) as char
    } else {
        c
    }
}

/// One token of a text: its case-folded characters plus the character range
/// it occupies in the source, so that excerpts can quote the original text.
pub struct Token {
    pub text: Vec<char>,
    pub start: usize,
    pub end: usize,
}

#[verifier::ext_equal]
pub ghost struct TokenModel {
    pub text: Seq<char>,
    pub start: int,
    pub end: int,
}

impl View for Token {
    type V = TokenModel;

    open spec fn view(&self) -> TokenModel {
        TokenModel { text: self.text@, start: self.start as int, end: self.end as int }
    }
}

pub open spec fn tokens_view(v: Seq<Token>) -> Seq<TokenModel> {
    v.map_values(|t: Token| t@)
}

/// Tokenizer state after reading a prefix: the finished tokens, and the token
/// still open, if any, as its start position and folded text so far.
pub open spec fn tok_step(
    st: (Seq<TokenModel>, Option<(int, Seq<char>)>),
    i: int,
    c: char,
) -> (Seq<TokenModel>, Option<(int, Seq<char>)>) {
    if is_token_char(c) {
        match st.1 {
            Option::None => (st.0, Option::Some((i, seq![fold_char(c)]))),
            Option::Some((start, t)) => (st.0, Option::Some((start, t.push(fold_char(c))))),
        }
    } else {
        match st.1 {
            Option::None => st,
            Option::Some((start, t)) => (
                st.0.push(TokenModel { text: t, start, end: i }),
                Option::None,
            ),
        }
    }
}

pub open spec fn tok_state(s: Seq<char>, i: int) -> (Seq<TokenModel>, Option<(int, Seq<char>)>)
    decreases i,
{
    if i <= 0 {
        (Seq::empty(), Option::None)
    } else {
        tok_step(tok_state(s, i - 1), i - 1, s[i - 1])
    }
}

/// The tokens of a text: maximal runs of token characters, case-folded, each
/// with the character range it came from.
pub open spec fn spec_tokenize(s: Seq<char>) -> Seq<TokenModel> {
    let st = tok_state(s, s.len() as int);
    match st.1 {
        Option::None => st.0,
        Option::Some((start, t)) => st.0.push(
            TokenModel { text: t, start, end: s.len() as int },
        ),
    }
}

/// Just the texts of a token sequence, without positions.
pub open spec fn texts_of(ts: Seq<TokenModel>) -> Seq<Seq<char>> {
    ts.map_values(|t: TokenModel| t.text)
}

/// Just the token texts of a text, without positions.
pub open spec fn spec_tokens(s: Seq<char>) -> Seq<Seq<char>> {
    texts_of(spec_tokenize(s))
}

/// Well-formedness of a tokenizer state at position `i`: all finished tokens
/// lie inside `[0, i)` in order, and the open token, if any, reaches `i`.
pub open spec fn tok_state_wf(st: (Seq<TokenModel>, Option<(int, Seq<char>)>), i: int) -> bool {
    &&& forall|j: int|
        0 <= j < st.0.len() ==> {
            &&& 0 <= (#[trigger] st.0[j]).start
            &&& st.0[j].start < st.0[j].end
            &&& st.0[j].text.len() == st.0[j].end - st.0[j].start
        }
    &&& forall|j: int, k: int| 0 <= j < k < st.0.len() ==> #[trigger] st.0[j].end <= #[trigger] st.0[k].start
    &&& match st.1 {
        Option::None => forall|j: int| 0 <= j < st.0.len() ==> (#[trigger] st.0[j]).end <= i,
        Option::Some((start, t)) => {
            &&& 0 <= start < i
            &&& t.len() == i - start
            &&& forall|j: int| 0 <= j < st.0.len() ==> (#[trigger] st.0[j]).end <= start
        },
    }
}

pub proof fn lemma_tok_state_wf(s: Seq<char>, i: int)
    requires
        0 <= i <= s.len(),
    ensures
        tok_state_wf(tok_state(s, i), i),
    decreases i,
{
    if i > 0 {
        lemma_tok_state_wf(s, i - 1);
    }
}

/// Every token of a text lies inside it, tokens do not overlap, and a token's
/// text is exactly as long as the range it was folded from.
pub proof fn lemma_token_positions(s: Seq<char>)
    ensures
        forall|j: int|
            0 <= j < spec_tokenize(s).len() ==> {
                &&& 0 <= (#[trigger] spec_tokenize(s)[j]).start
                &&& spec_tokenize(s)[j].start < spec_tokenize(s)[j].end
                &&& spec_tokenize(s)[j].end <= s.len()
                &&& spec_tokenize(s)[j].text.len() == spec_tokenize(s)[j].end - spec_tokenize(
                    s,
                )[j].start
            },
        forall|j: int, k: int|
            0 <= j < k < spec_tokenize(s).len() ==> #[trigger] spec_tokenize(s)[j].end
                <= #[trigger] spec_tokenize(s)[k].start,
{
    lemma_tok_state_wf(s, s.len() as int);
}

spec fn cur_model(on: bool, start: usize, text: Seq<char>) -> Option<(int, Seq<char>)> {
    if on {
        Option::Some((start as int, text))
    } else {
        Option::None
    }
}

/// Split a text into its search tokens.
pub fn tokenize(s: &str) -> (r: Vec<Token>)
    ensures
        tokens_view(r@) == spec_tokenize(s@),
{
    let len: usize = s.unicode_len();
    let mut done: Vec<Token> = Vec::new();
    let mut cur_on: bool = false;
    let mut cur_start: usize = 0;
    let mut cur_text: Vec<char> = Vec::new();
    let mut i: usize = 0;
    while i < len
        invariant
            i <= len,
            len == s@.len(),
            (tokens_view(done@), cur_model(cur_on, cur_start, cur_text@)) == tok_state(
                s@,
                i as int,
            ),
            cur_on ==> cur_start <= i,
            !cur_on ==> cur_text@.len() == 0,
        decreases len - i,
    {
        let c = s.get_char(i);
        if is_token_char_exec(c) {
            if !cur_on {
                cur_on = true;
                cur_start = i;
            }
            cur_text.push(fold_char_exec(c));
        } else {
            if cur_on {
                done.push(Token { text: cur_text, start: cur_start, end: i });
                cur_text = Vec::new();
                cur_on = false;
            }
        }
        i = i + 1;
        proof {
            assert((tokens_view(done@), cur_model(cur_on, cur_start, cur_text@)) =~~= tok_state(
                s@,
                i as int,
            ));
        }
    }
    if cur_on {
        done.push(Token { text: cur_text, start: cur_start, end: len });
    }
    proof {
        assert(tokens_view(done@) =~~= spec_tokenize(s@));
    }
    done
}

/// Whether `a` and `b` hold the same characters.
pub fn chars_eq(a: &Vec<char>, b: &Vec<char>) -> (r: bool)
    ensures
        r == (a@ == b@),
{
    if a.len() != b.len() {
        proof {
            assert(a@ != b@);
        }
        return false;
    }
    let mut i: usize = 0;
    while i < a.len()
        invariant
            i <= a.len(),
            a@.len() == b@.len(),
            forall|j: int| 0 <= j < i ==> a@[j] == b@[j],
        decreases a.len() - i,
    {
        if a[i] != b[i] {
            proof {
                assert(a@ != b@);
            }
            return false;
        }
        i = i + 1;
    }
    proof {
        assert(a@ =~= b@);
    }
    true
}

/// Whether some token in `toks` has exactly the text `q`.
pub open spec fn spec_has_token(toks: Seq<TokenModel>, q: Seq<char>) -> bool {
    exists|j: int| 0 <= j < toks.len() && toks[j].text == q
}

pub fn has_token(toks: &Vec<Token>, q: &Vec<char>) -> (r: bool)
    ensures
        r == spec_has_token(tokens_view(toks@), q@),
{
    let mut i: usize = 0;
    while i < toks.len()
        invariant
            i <= toks.len(),
            forall|j: int| 0 <= j < i ==> tokens_view(toks@)[j].text != q@,
        decreases toks.len() - i,
    {
        if chars_eq(&toks[i].text, q) {
            proof {
                assert(tokens_view(toks@)[i as int].text == q@);
            }
            return true;
        }
        i = i + 1;
    }
    false
}

/// How many tokens in `ts` have exactly the text `q`.
pub open spec fn spec_count_token(ts: Seq<Seq<char>>, q: Seq<char>) -> nat
    decreases ts.len(),
{
    if ts.len() == 0 {
        0
    } else {
        spec_count_token(ts.drop_last(), q) + if ts.last() == q {
            1nat
        } else {
            0nat
        }
    }
}

/// Count the tokens of `toks` whose text is exactly `q`.
pub fn count_token(toks: &Vec<Token>, q: &Vec<char>) -> (r: usize)
    ensures
        r == spec_count_token(texts_of(tokens_view(toks@)), q@),
{
    let ghost s = texts_of(tokens_view(toks@));
    let mut cnt: usize = 0;
    let mut i: usize = 0;
    while i < toks.len()
        invariant
            i <= toks.len(),
            cnt <= i,
            s == texts_of(tokens_view(toks@)),
            toks@.len() == s.len(),
            cnt == spec_count_token(s.take(i as int), q@),
        decreases toks.len() - i,
    {
        let hit = chars_eq(&toks[i].text, q);
        proof {
            assert(s[i as int] == toks@[i as int]@.text);
            assert(s.take(i + 1 as int).drop_last() =~= s.take(i as int));
            assert(s.take(i + 1 as int).last() == s[i as int]);
        }
        if hit {
            cnt = cnt + 1;
        }
        i = i + 1;
    }
    proof {
        assert(s.take(toks@.len() as int) =~= s);
    }
    cnt
}

/// Whether `c` is ASCII whitespace for the purpose of counting words.
pub open spec fn is_space(c: char) -> bool {
    c == ' ' || c == '\t' || c == '\n' || c == '\r'
}

/// The number of whitespace-separated words in a prefix of length `i`.
pub open spec fn spec_word_count(s: Seq<char>, i: int) -> nat
    decreases i,
{
    if i <= 0 || i > s.len() {
        0
    } else {
        spec_word_count(s, i - 1) + if !is_space(s[i - 1]) && (i == 1 || is_space(s[i - 2])) {
            1nat
        } else {
            0nat
        }
    }
}

/// Count the whitespace-separated words of a text, capped at `i32::MAX`.
pub fn word_count(s: &str) -> (r: i32)
    ensures
        r as nat == if spec_word_count(s@, s@.len() as int) > i32::MAX as nat {
            i32::MAX as nat
        } else {
            spec_word_count(s@, s@.len() as int)
        },
{
    let len: usize = s.unicode_len();
    let mut count: usize = 0;
    let mut i: usize = 0;
    while i < len
        invariant
            i <= len,
            len == s@.len(),
            count as nat == if spec_word_count(s@, i as int) > i32::MAX as nat {
                i32::MAX as nat
            } else {
                spec_word_count(s@, i as int)
            },
        decreases len - i,
    {
        let c = s.get_char(i);
        let starts = !(c == ' ' || c == '\t' || c == '\n' || c == '\r') && (i == 0 || {
            let p = s.get_char(i - 1);
            p == ' ' || p == '\t' || p == '\n' || p == '\r'
        });
        if starts && count < i32::MAX as usize {
            count = count + 1;
        }
        i = i + 1;
    }
    count as i32
}

} // verus!
