use vstd::prelude::*;

verus! {

/// The abstract value of a token.
pub struct SpecToken {
    pub ttype: Seq<char>,
    pub text: Seq<char>,
    pub row: usize,
    pub col: usize,
}

/// A token of the input: its type, its text and where it stands.
#[derive(Debug)]
pub struct Token {
    pub ttype: String,
    pub text: String,
    pub row: usize,
    pub col: usize,
}

impl View for Token {
    type V = SpecToken;

    open spec fn view(&self) -> SpecToken {
        SpecToken { ttype: self.ttype@, text: self.text@, row: self.row, col: self.col }
    }
}

impl Clone for Token {
    fn clone(&self) -> (res: Self)
        ensures
            res == *self,
    {
        Token { ttype: self.ttype.clone(), text: self.text.clone(), row: self.row, col: self.col }
    }
}

impl Token {
    pub fn new(ttype: String, text: String, row: usize, col: usize) -> (res: Token)
        ensures
            res.ttype == ttype,
            res.text == text,
            res.row == row,
            res.col == col,
    {
        Token { ttype, text, row, col }
    }
}

/// The tokens of an input, ending with a token of type `EOF`.
#[derive(Debug)]
pub struct TokenStream {
    pub stream: Vec<Token>,
}


/// A line of a token file: pieces between single spaces, the text second, the type
/// third, the row fourth and the column fifth.
pub open spec fn token_line(line: Seq<char>) -> Option<SpecToken> {
    let t = crate::grammar::rule::split_on(line, ' ');
    if t.len() < 5 {
        None
    } else {
        match (crate::utils::text::parse_number(t[3]), crate::utils::text::parse_number(t[4])) {
            (Some(row), Some(col)) => Some(SpecToken { ttype: t[2], text: t[1], row, col }),
            _ => None,
        }
    }
}

/// The end-of-input token.
pub open spec fn eof_token() -> SpecToken {
    SpecToken { ttype: "EOF"@, text: seq![], row: 0, col: 0 }
}

impl TokenStream {
    /// Reads a token file, a token per line, and ends the stream with an `EOF` token;
    /// `None` where a line does not read.
    pub fn from_text(text: &str) -> (res: Option<TokenStream>)
        ensures
            match res {
                Some(ts) => {
                    let ls = crate::utils::text::lines(text@);
                    &&& ts.stream@.len() == ls.len() + 1
                    &&& forall|i: int| 0 <= i < ls.len() ==> token_line(ls[i]) == Some((#[trigger] ts.stream@[i])@)
                    &&& ts.stream@[ls.len() as int]@ == eof_token()
                },
                None => exists|i: int| 0 <= i < crate::utils::text::lines(text@).len()
                    && #[trigger] token_line(crate::utils::text::lines(text@)[i]) is None,
            },
    {
        let cs = crate::grammar::rule::str_chars(text);
        let ls = crate::utils::text::split_lines(&cs);
        let ghost lv = crate::utils::text::char_seqs(ls@);
        let mut tokens: Vec<Token> = Vec::new();
        for i in 0..ls.len()
            invariant
                lv == crate::utils::text::char_seqs(ls@),
                lv == crate::utils::text::lines(text@),
                tokens@.len() == i,
                forall|j: int| 0 <= j < i ==> token_line(lv[j]) == Some((#[trigger] tokens@[j])@),
        {
            assert(lv[i as int] == ls@[i as int]@);
            let t = crate::grammar::rule::split_chars(&ls[i], ' ');
            let ghost tv = t@.map_values(|p: Vec<char>| p@);
            if t.len() < 5 {
                assert(token_line(lv[i as int]) is None);
                return None;
            }
            assert(tv[1] == t@[1]@ && tv[2] == t@[2]@ && tv[3] == t@[3]@ && tv[4] == t@[4]@);
            let row = match crate::utils::text::parse_usize(&t[3]) {
                None => {
                    assert(token_line(lv[i as int]) is None);
                    return None;
                },
                Some(r) => r,
            };
            let col = match crate::utils::text::parse_usize(&t[4]) {
                None => {
                    assert(token_line(lv[i as int]) is None);
                    return None;
                },
                Some(c) => c,
            };
            let text_s = crate::optimization::program::chars_string(&t[1]);
            let ttype = crate::optimization::program::chars_string(&t[2]);
            let ghost k0 = tokens@;
            tokens.push(Token::new(ttype, text_s, row, col));
            proof {
                assert forall|j: int| 0 <= j < i + 1 implies token_line(lv[j]) == Some((#[trigger] tokens@[j])@) by {
                    if j < i { assert(tokens@[j] == k0[j]); }
                }
            }
        }
        let eof = String::from_str("EOF");
        let ghost n = tokens@.len();
        tokens.push(Token::new(eof, String::new(), 0, 0));
        proof {
            assert(tokens@[n as int]@ == eof_token());
        }
        Some(TokenStream { stream: tokens })
    }
}

/// The tokens, one per line: `type: T text: X`.
pub open spec fn token_lines(t: Seq<Token>) -> Seq<char>
    decreases t.len(),
{
    if t.len() == 0 {
        seq![]
    } else {
        token_lines(t.drop_last()) + "type: "@ + t.last().ttype@ + " text: "@ + t.last().text@ + "\n"@
    }
}

impl TokenStream {
    /// The printed form of the stream: a line per token with its type and its text.
    pub fn to_string(&self) -> (res: String)
        ensures
            res@ == token_lines(self.stream@),
    {
        let mut s = String::new();
        for i in 0..self.stream.len()
            invariant
                s@ == token_lines(self.stream@.take(i as int)),
        {
            let ghost before = s@;
            s.append("type: ");
            s.append(self.stream[i].ttype.as_str());
            s.append(" text: ");
            s.append(self.stream[i].text.as_str());
            s.append("\n");
            assert(self.stream@.take(i + 1).drop_last() =~= self.stream@.take(i as int));
            assert(s@ =~= before + "type: "@ + self.stream@[i as int].ttype@ + " text: "@ + self.stream@[i as int].text@ + "\n"@);
        }
        assert(self.stream@.take(self.stream@.len() as int) =~= self.stream@);
        s
    }
}

} // verus!
