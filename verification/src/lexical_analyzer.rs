//! The lexical scanner: a character-by-character finite-state machine that
//! turns a raw expression string into an ordered token sequence, or reports
//! the first character that fits no token with its 1-based position.
use crate::tokens::{
    spec_new_number, spec_new_op, spec_new_paren, Token, TokenView,
};
use vstd::prelude::*;

verus! {

/// The scan was refused outright: the expression holds a non-ASCII
/// character.
#[derive(Debug, PartialEq, Eq, Structural)]
pub struct NotAsciiError;

impl NotAsciiError {
    /// The error's display text.
    pub fn message(&self) -> (r: String)
        ensures
            r@ == spec_not_ascii_message(),
    {
        proof {
            reveal_strlit("Expression was not an ASCII string.");
        }
        "Expression was not an ASCII string.".to_owned()
    }
}

/// What `NotAsciiError::message` says.
pub open spec fn spec_not_ascii_message() -> Seq<char> {
    "Expression was not an ASCII string."@
}

/// A character that could not start or extend any token, with its 1-based
/// position in the expression.
#[derive(Debug)]
pub struct InvalidTokenError {
    pub position: usize,
    pub value: String,
}

/// The mathematical value of an `InvalidTokenError`.
pub struct InvalidTokenErrorView {
    pub position: int,
    pub value: Seq<char>,
}

impl View for InvalidTokenError {
    type V = InvalidTokenErrorView;

    open spec fn view(&self) -> InvalidTokenErrorView {
        InvalidTokenErrorView { position: self.position as int, value: self.value@ }
    }
}

impl PartialEq for InvalidTokenError {
    fn eq(&self, other: &Self) -> (r: bool) {
        self.position == other.position && self.value == other.value
    }
}

impl vstd::std_specs::cmp::PartialEqSpecImpl for InvalidTokenError {
    open spec fn obeys_eq_spec() -> bool {
        true
    }

    open spec fn eq_spec(&self, other: &Self) -> bool {
        self@ == other@
    }
}

/// What `InvalidTokenError::message` says of a position and an offending
/// text.
pub open spec fn spec_unexpected_message(position: int, value: Seq<char>) -> Seq<char> {
    "Unexpected character \""@ + value + "\" at position "@ + crate::tokens::spec_int_string(
        position,
    )
}

/// What `InvalidTokenError::arrow` yields for a 1-based position: spaces up
/// to the offending column, then a caret.
pub open spec fn spec_arrow(position: int) -> Seq<char> {
    Seq::new((position - 1) as nat, |i: int| ' ').push('^')
}

impl InvalidTokenError {
    /// The error's display text: the offending character and its 1-based
    /// position.
    pub fn message(&self) -> (r: String)
        ensures
            r@ == spec_unexpected_message(self.position as int, self.value@),
    {
        proof {
            reveal_strlit("Unexpected character \"");
            reveal_strlit("\" at position ");
        }
        let mut s = "Unexpected character \"".to_owned();
        s.append(self.value.as_str());
        s.append("\" at position ");
        let digits = crate::tokens::nat_to_string(self.position as u64);
        s.append(digits.as_str());
        s
    }

    /// A caret line that points at the offending column when printed under
    /// the expression.
    pub fn arrow(&self) -> (r: String)
        requires
            self.position >= 1,
        ensures
            r@ == spec_arrow(self.position as int),
    {
        proof {
            reveal_strlit(" ");
            reveal_strlit("^");
        }
        let mut s = String::new();
        let mut i: usize = 0;
        while i < self.position - 1
            invariant
                i <= self.position - 1,
                s@ =~= Seq::new(i as nat, |k: int| ' '),
            decreases self.position - 1 - i,
        {
            s.append(" ");
            proof {
                assert(s@ =~= Seq::new((i + 1) as nat, |k: int| ' '));
            }
            i += 1;
        }
        s.append("^");
        proof {
            assert(s@ =~= spec_arrow(self.position as int));
        }
        s
    }
}

/// A state of the scanner's finite-state machine.
#[derive(Debug, Clone, Copy, PartialEq, Eq, Structural)]
pub enum State {
    Initial,
    Integer,
    FloatStart,
    OpenParen,
    CloseParen,
    Minus,
    Plus,
    Multiply,
    Divide,
    Float,
    EOL,
    Whitespace,
    Variable,
}

/// The class of an input character.
#[derive(Debug, Clone, Copy, PartialEq, Eq, Structural)]
pub enum CharType {
    Letter,
    Digit,
    Whitespace,
    Other(char),
}

/// Whether `c` is an ASCII letter.
pub open spec fn is_ascii_letter(c: char) -> bool {
    (65 <= c as u32 <= 90) || (97 <= c as u32 <= 122)
}

/// Whether the scanner counts `c` as whitespace: a space or a tab.
pub open spec fn spec_is_whitespace(c: char) -> bool {
    c == ' ' || c == '\t'
}

/// The class the scanner assigns to `c`.
pub open spec fn spec_char_type(c: char) -> CharType {
    if is_ascii_letter(c) {
        CharType::Letter
    } else if crate::tokens::is_digit(c) {
        CharType::Digit
    } else if spec_is_whitespace(c) {
        CharType::Whitespace
    } else {
        CharType::Other(c)
    }
}

/// The scanner's transition table: the next state for a character in a
/// state, or nothing when the character ends the current token.
pub open spec fn spec_transition(state: State, c: char) -> Option<State> {
    match (state, spec_char_type(c)) {
        (State::Initial, CharType::Digit) => Some(State::Integer),
        (State::Initial, CharType::Other('.')) => Some(State::FloatStart),
        (State::Initial, CharType::Other('(')) => Some(State::OpenParen),
        (State::Initial, CharType::Other(')')) => Some(State::CloseParen),
        (State::Initial, CharType::Other('-')) => Some(State::Minus),
        (State::Initial, CharType::Other('+')) => Some(State::Plus),
        (State::Initial, CharType::Other('*')) => Some(State::Multiply),
        (State::Initial, CharType::Other('/')) => Some(State::Divide),
        (State::Initial, CharType::Other('\n')) => Some(State::EOL),
        (State::Initial, CharType::Whitespace) => Some(State::Whitespace),
        (State::Initial, CharType::Letter) => Some(State::Variable),
        (State::Initial, CharType::Other('_')) => Some(State::Variable),
        (State::Integer, CharType::Digit) => Some(State::Integer),
        (State::Integer, CharType::Other('.')) => Some(State::FloatStart),
        (State::FloatStart, CharType::Digit) => Some(State::Float),
        (State::Float, CharType::Digit) => Some(State::Float),
        (State::Whitespace, CharType::Whitespace) => Some(State::Whitespace),
        (State::Variable, CharType::Letter) => Some(State::Variable),
        (State::Variable, CharType::Digit) => Some(State::Variable),
        (State::Variable, CharType::Other('_')) => Some(State::Variable),
        _ => None,
    }
}

/// The token a terminated state resolves to, for the text it consumed.
pub open spec fn spec_token_from_state(state: State, text: Seq<char>) -> TokenView {
    match state {
        State::Initial => TokenView::InvalidToken(text),
        State::FloatStart => TokenView::InvalidToken(text),
        State::EOL => TokenView::EOL,
        State::Variable => TokenView::Variable(text),
        State::Integer => spec_new_number(text),
        State::Float => spec_new_number(text),
        State::OpenParen => spec_new_paren(text),
        State::CloseParen => spec_new_paren(text),
        State::Minus => spec_new_op(text),
        State::Plus => spec_new_op(text),
        State::Multiply => spec_new_op(text),
        State::Divide => spec_new_op(text),
        State::Whitespace => TokenView::Whitespace,
    }
}

/// The input character at `i`: the expression's character there, or the
/// synthetic trailing newline past the end.
pub open spec fn ext_char(s: Seq<char>, i: int) -> char {
    if i < s.len() {
        s[i]
    } else {
        '\n'
    }
}

/// Runs the transition table from `state` at `pos` until no transition
/// applies: the position where the current token ends, and the state
/// reached there.  One position past the end means the synthetic newline
/// was consumed too.
pub open spec fn spec_munch(s: Seq<char>, pos: int, state: State) -> (int, State)
    decreases s.len() + 1 - pos,
{
    if pos > s.len() {
        (pos, state)
    } else {
        match spec_transition(state, ext_char(s, pos)) {
            None => (pos, state),
            Some(next) => spec_munch(s, pos + 1, next),
        }
    }
}

/// `spec_munch` moves forward, stays within one position past the end, and
/// leaves the initial state with any consumed character.
pub proof fn lemma_munch_bounds(s: Seq<char>, pos: int, state: State)
    ensures
        ({
            let (end, st) = spec_munch(s, pos, state);
            &&& pos <= end
            &&& pos <= s.len() + 1 ==> end <= s.len() + 1
            &&& end == pos ==> st == state
            &&& st is Initial ==> st == state && end == pos
        }),
    decreases s.len() + 1 - pos,
{
    if pos <= s.len() {
        match spec_transition(state, ext_char(s, pos)) {
            None => {},
            Some(next) => {
                lemma_munch_bounds(s, pos + 1, next);
                assert(!(next is Initial));
            },
        }
    }
}

/// Scans `s` from `pos` to the end: the token sequence with whitespace
/// dropped, or the 1-based position and text of the first character that
/// fits no token.
pub open spec fn spec_scan(s: Seq<char>, pos: int) -> Result<Seq<TokenView>, (int, Seq<char>)>
    decreases s.len() + 1 - pos,
{
    let (end, state) = spec_munch(s, pos, State::Initial);
    if end > s.len() {
        Ok(Seq::empty())
    } else {
        let text = s.subrange(pos, end);
        let potential = spec_token_from_state(state, text);
        if potential is InvalidToken {
            Err((end + 1, seq![ext_char(s, end)]))
        } else {
            proof {
                lemma_munch_bounds(s, pos, State::Initial);
            }
            match spec_scan(s, end) {
                Ok(rest) => Ok(
                    if potential is Whitespace {
                        rest
                    } else {
                        seq![potential] + rest
                    },
                ),
                Err(e) => Err(e),
            }
        }
    }
}

/// Splices an already-scanned prefix onto the scan of the rest.
spec fn scan_prepend(
    a: Seq<TokenView>,
    r: Result<Seq<TokenView>, (int, Seq<char>)>,
) -> Result<Seq<TokenView>, (int, Seq<char>)> {
    match r {
        Ok(b) => Ok(a + b),
        Err(e) => Err(e),
    }
}

/// Whether every character of `s` is ASCII.
pub open spec fn all_ascii(s: Seq<char>) -> bool {
    forall|i: int| #![trigger s[i]] 0 <= i < s.len() ==> (s[i] as u32) < 128
}

/// The finite-state scanner over one expression string.
#[derive(Debug)]
pub struct TokenParser {
    current_state: State,
    expression: String,
    chars: Vec<char>,
    position: usize,
}

impl TokenParser {
    /// The expression under scan.
    pub closed spec fn text(&self) -> Seq<char> {
        self.expression@
    }

    /// The scanner's current character position.
    pub closed spec fn pos(&self) -> int {
        self.position as int
    }

    /// The scanner's internal consistency: the character buffer mirrors the
    /// expression, and the position stays within it (one past the synthetic
    /// trailing newline at most).
    pub closed spec fn wf(&self) -> bool {
        &&& self.chars@ == self.expression@
        &&& self.position <= self.chars@.len() + 1
        &&& self.chars@.len() < usize::MAX
    }

    /// Builds a scanner over `expression`, refusing any non-ASCII input.
    pub fn new(expression: &String) -> (r: Result<TokenParser, NotAsciiError>)
        requires
            expression@.len() < usize::MAX,
        ensures
            match r {
                Ok(p) => {
                    &&& all_ascii(expression@)
                    &&& p.wf()
                    &&& p.text() == expression@
                    &&& p.pos() == 0
                },
                Err(_) => !all_ascii(expression@),
            },
    {
        let n = expression.as_str().unicode_len();
        let mut chars: Vec<char> = Vec::new();
        let mut i: usize = 0;
        while i < n
            invariant
                i <= n,
                n == expression@.len(),
                chars@ =~= expression@.subrange(0, i as int),
                forall|k: int| #![trigger expression@[k]] 0 <= k < i ==> (expression@[k] as u32) < 128,
            decreases n - i,
        {
            let c = expression.as_str().get_char(i);
            if c as u32 >= 128 {
                return Err(NotAsciiError);
            }
            chars.push(c);
            proof {
                assert(chars@ =~= expression@.subrange(0, i + 1));
            }
            i += 1;
        }
        proof {
            assert(chars@ =~= expression@);
        }
        Ok(
            TokenParser {
                current_state: State::Initial,
                expression: expression.clone(),
                chars,
                position: 0,
            },
        )
    }

    /// Whether the scanner counts `c` as whitespace.
    pub fn is_whitespace(c: char) -> (r: bool)
        ensures
            r == spec_is_whitespace(c),
    {
        c == ' ' || c == '\t'
    }

    /// The class the scanner assigns to `c`.
    pub fn get_char_type(c: char) -> (r: CharType)
        ensures
            r == spec_char_type(c),
    {
        let u = c as u32;
        if (65 <= u && u <= 90) || (97 <= u && u <= 122) {
            CharType::Letter
        } else if 48 <= u && u <= 57 {
            CharType::Digit
        } else if Self::is_whitespace(c) {
            CharType::Whitespace
        } else {
            CharType::Other(c)
        }
    }

    /// One step of the transition table.
    pub fn transition(current_state: &State, next_char: &char) -> (r: Option<State>)
        ensures
            r == spec_transition(*current_state, *next_char),
    {
        let char_type = Self::get_char_type(*next_char);
        match (current_state, char_type) {
            (State::Initial, CharType::Digit) => Some(State::Integer),
            (State::Initial, CharType::Other('.')) => Some(State::FloatStart),
            (State::Initial, CharType::Other('(')) => Some(State::OpenParen),
            (State::Initial, CharType::Other(')')) => Some(State::CloseParen),
            (State::Initial, CharType::Other('-')) => Some(State::Minus),
            (State::Initial, CharType::Other('+')) => Some(State::Plus),
            (State::Initial, CharType::Other('*')) => Some(State::Multiply),
            (State::Initial, CharType::Other('/')) => Some(State::Divide),
            (State::Initial, CharType::Other('\n')) => Some(State::EOL),
            (State::Initial, CharType::Whitespace) => Some(State::Whitespace),
            (State::Initial, CharType::Letter) => Some(State::Variable),
            (State::Initial, CharType::Other('_')) => Some(State::Variable),
            (State::Integer, CharType::Digit) => Some(State::Integer),
            (State::Integer, CharType::Other('.')) => Some(State::FloatStart),
            (State::FloatStart, CharType::Digit) => Some(State::Float),
            (State::Float, CharType::Digit) => Some(State::Float),
            (State::Whitespace, CharType::Whitespace) => Some(State::Whitespace),
            (State::Variable, CharType::Letter) => Some(State::Variable),
            (State::Variable, CharType::Digit) => Some(State::Variable),
            (State::Variable, CharType::Other('_')) => Some(State::Variable),
            _ => None,
        }
    }

    /// Resolves the next token of the expression: consumes characters from
    /// the current position until no transition applies, classifies the
    /// consumed text by the state reached, and reduces an unclassifiable
    /// text to the single character that stopped the scan.  Yields nothing
    /// once the expression, with its synthetic trailing newline, is
    /// consumed.
    fn next_token(&mut self) -> (r: Option<Token>)
        requires
            old(self).wf(),
        ensures
            final(self).wf(),
            final(self).text() == old(self).text(),
            ({
                let (end, state) = spec_munch(old(self).text(), old(self).pos(), State::Initial);
                match r {
                    None => end > old(self).text().len() && final(self).pos() == end,
                    Some(tok) => {
                        &&& end <= old(self).text().len()
                        &&& final(self).pos() == end
                        &&& {
                            let potential = spec_token_from_state(
                                state,
                                old(self).text().subrange(old(self).pos(), end),
                            );
                            tok@ == (if potential is InvalidToken {
                                TokenView::InvalidToken(
                                    seq![ext_char(old(self).text(), end)],
                                )
                            } else {
                                potential
                            })
                        }
                    },
                }
            }),
    {
        self.current_state = State::Initial;
        let n = self.chars.len();
        let start = self.position;
        let ghost s = self.text();
        let mut i = start;
        loop
            invariant
                start <= i <= n + 1,
                n == s.len(),
                self.chars@ == s,
                self.expression@ == s,
                self.position == start,
                start <= n + 1,
                n < usize::MAX,
                spec_munch(s, start as int, State::Initial) == spec_munch(
                    s,
                    i as int,
                    self.current_state,
                ),
            decreases n + 1 - i,
        {
            if i == n + 1 {
                self.position = i;
                return None;
            }
            let c = if i < n {
                self.chars[i]
            } else {
                '\n'
            };
            proof {
                assert(ext_char(s, i as int) == c);
            }
            match Self::transition(&self.current_state, &c) {
                Some(next_state) => {
                    self.current_state = next_state;
                    i += 1;
                },
                None => {
                    self.position = i;
                    let text = self.expression.as_str().substring_char(start, i);
                    let potential = Self::token_from_state(&self.current_state, text);
                    let is_invalid = match &potential {
                        Token::InvalidToken(_) => true,
                        _ => false,
                    };
                    if is_invalid {
                        let bad: String = if i < n {
                            self.expression.as_str().substring_char(i, i + 1).to_owned()
                        } else {
                            proof {
                                reveal_strlit("\n");
                            }
                            "\n".to_owned()
                        };
                        proof {
                            assert(bad@ =~= seq![ext_char(s, i as int)]);
                        }
                        return Some(Token::InvalidToken(bad));
                    } else {
                        return Some(potential);
                    }
                },
            }
        }
    }

    /// Scans the whole expression into its token sequence, dropping
    /// whitespace tokens, or stops at the first character that fits no
    /// token.
    pub fn get_tokens(&mut self) -> (r: Result<Vec<Token>, InvalidTokenError>)
        requires
            old(self).wf(),
        ensures
            final(self).wf(),
            match r {
                Ok(v) => spec_scan(old(self).text(), old(self).pos()) == Ok::<
                    Seq<TokenView>,
                    (int, Seq<char>),
                >(crate::tokens::views(v@)),
                Err(e) => {
                    &&& spec_scan(old(self).text(), old(self).pos()) == Err::<
                        Seq<TokenView>,
                        (int, Seq<char>),
                    >((e@.position, e@.value))
                    &&& e.position >= 1
                },
            },
    {
        let ghost s = self.text();
        let ghost pos0 = self.pos();
        let mut token_vec: Vec<Token> = Vec::new();
        proof {
            assert(crate::tokens::views(token_vec@) =~= Seq::<TokenView>::empty());
            if spec_scan(s, pos0) is Ok {
                assert(crate::tokens::views(token_vec@) + spec_scan(s, pos0)->Ok_0 =~= spec_scan(
                    s,
                    pos0,
                )->Ok_0);
            }
        }
        loop
            invariant
                self.wf(),
                self.text() == s,
                spec_scan(s, pos0) == scan_prepend(
                    crate::tokens::views(token_vec@),
                    spec_scan(s, self.pos()),
                ),
            decreases s.len() + 1 - self.pos(),
        {
            let ghost cur = self.pos();
            let ghost acc_before = token_vec@;
            proof {
                lemma_munch_bounds(s, cur, State::Initial);
            }
            match self.next_token() {
                None => {
                    proof {
                        assert(spec_scan(s, cur) == Ok::<Seq<TokenView>, (int, Seq<char>)>(
                            Seq::empty(),
                        ));
                        assert(crate::tokens::views(token_vec@) + Seq::<TokenView>::empty()
                            =~= crate::tokens::views(token_vec@));
                    }
                    return Ok(token_vec);
                },
                Some(next) => {
                    let ghost (end, state) = spec_munch(s, cur, State::Initial);
                    let ghost potential = spec_token_from_state(state, s.subrange(cur, end));
                    match next {
                        Token::Whitespace => {
                            proof {
                                assert(potential is Whitespace);
                                assert(spec_scan(s, cur) == spec_scan(s, end));
                            }
                        },
                        Token::InvalidToken(text) => {
                            proof {
                                assert(potential is InvalidToken);
                                assert(spec_scan(s, cur) == Err::<
                                    Seq<TokenView>,
                                    (int, Seq<char>),
                                >((end + 1, seq![ext_char(s, end)])));
                            }
                            return Err(
                                InvalidTokenError { position: self.position + 1, value: text },
                            );
                        },
                        other => {
                            proof {
                                assert(!(potential is InvalidToken));
                                assert(other@ == potential);
                                assert(!(potential is Whitespace));
                                assert(crate::tokens::views(acc_before.push(other))
                                    =~= crate::tokens::views(acc_before).push(other@));
                                if spec_scan(s, end) is Ok {
                                    let rest = spec_scan(s, end)->Ok_0;
                                    assert(spec_scan(s, cur) == Ok::<
                                        Seq<TokenView>,
                                        (int, Seq<char>),
                                    >(seq![potential] + rest));
                                    assert(crate::tokens::views(acc_before).push(other@) + rest
                                        =~= crate::tokens::views(acc_before) + (seq![potential]
                                        + rest));
                                }
                            }
                            token_vec.push(other);
                        },
                    }
                },
            }
        }
    }

    /// The token a terminated state resolves to.
    fn token_from_state(state: &State, value: &str) -> (r: Token)
        ensures
            r@ == spec_token_from_state(*state, value@),
    {
        match state {
            State::Initial => Token::InvalidToken(value.to_owned()),
            State::FloatStart => Token::InvalidToken(value.to_owned()),
            State::EOL => Token::EOL,
            State::Variable => Token::new_variable(value),
            State::Integer => Token::new_number(value),
            State::Float => Token::new_number(value),
            State::OpenParen => Token::new_paren(value),
            State::CloseParen => Token::new_paren(value),
            State::Minus => Token::new_op(value),
            State::Plus => Token::new_op(value),
            State::Multiply => Token::new_op(value),
            State::Divide => Token::new_op(value),
            State::Whitespace => Token::Whitespace,
        }
    }
}

} // verus!
