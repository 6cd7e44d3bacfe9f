//! The token vocabulary: numbers, operators, parentheses, variables,
//! whitespace, end-of-line and invalid text, with the rules that classify a
//! raw substring into a token and render a token back to display text.
use vstd::prelude::*;

verus! {

/// A grouping delimiter.
#[derive(Debug, Clone, Copy, PartialEq, Eq, Structural)]
pub enum ParenType {
    OpenParen,
    CloseParen,
}

/// A binary arithmetic operator.
#[derive(Debug, Clone, Copy, PartialEq, Eq, Structural)]
pub enum Op {
    Add,
    Sub,
    Mult,
    Div,
}

/// A decimal literal, kept as its lexical parts: an optional leading minus,
/// the digits before the point and the digits after it.  The numeric value is
/// only realized outside the core, when a program is executed.
#[derive(Debug)]
pub struct DecimalLit {
    pub neg: bool,
    pub int_part: String,
    pub frac_part: String,
}

/// A numeric literal: either a 64-bit signed integer or a decimal kept in
/// lexical form.
#[derive(Debug)]
pub enum Num {
    Integer(i64),
    Decimal(DecimalLit),
}

/// An atomic lexical unit of an expression.
#[derive(Debug)]
pub enum Token {
    Paren(ParenType),
    Number(Num),
    Operator(Op),
    Variable(String),
    Whitespace,
    EOL,
    InvalidToken(String),
}

/// The mathematical value of a `DecimalLit`: its parts as character
/// sequences.
pub struct DecimalLitView {
    pub neg: bool,
    pub int_part: Seq<char>,
    pub frac_part: Seq<char>,
}

/// The mathematical value of a `Num`.
pub enum NumView {
    Integer(int),
    Decimal(DecimalLitView),
}

/// The mathematical value of a `Token`.
pub enum TokenView {
    Paren(ParenType),
    Number(NumView),
    Operator(Op),
    Variable(Seq<char>),
    Whitespace,
    EOL,
    InvalidToken(Seq<char>),
}

/// Whether `c` is an ASCII decimal digit.
pub open spec fn is_digit(c: char) -> bool {
    48 <= c as u32 <= 57
}

/// The numeric value of an ASCII digit character.
pub open spec fn digit_val(c: char) -> int {
    c as u32 - 48
}

/// Whether every character of `s` is an ASCII decimal digit.
pub open spec fn all_digits(s: Seq<char>) -> bool {
    forall|i: int| 0 <= i < s.len() ==> is_digit(#[trigger] s[i])
}

/// The base-10 value of a digit string (0 for the empty string).
pub open spec fn digits_val(s: Seq<char>) -> int
    decreases s.len(),
{
    if s.len() == 0 {
        0
    } else {
        10 * digits_val(s.drop_last()) + digit_val(s.last())
    }
}

/// Whether `s` starts with an explicit sign character.
pub open spec fn has_sign(s: Seq<char>) -> bool {
    s.len() > 0 && (s[0] == '+' || s[0] == '-')
}

/// Whether `s` starts with a minus sign.
pub open spec fn is_neg_literal(s: Seq<char>) -> bool {
    s.len() > 0 && s[0] == '-'
}

/// `s` with a leading sign character removed, if one is there.
pub open spec fn unsigned_part(s: Seq<char>) -> Seq<char> {
    if has_sign(s) {
        s.subrange(1, s.len() as int)
    } else {
        s
    }
}

/// Whether `s` is a base-10 signed integer literal whose value fits in an
/// `i64`: an optional sign followed by at least one digit.
pub open spec fn is_integer_literal(s: Seq<char>) -> bool {
    let d = unsigned_part(s);
    &&& d.len() > 0
    &&& all_digits(d)
    &&& if is_neg_literal(s) {
        digits_val(d) <= 0x8000_0000_0000_0000
    } else {
        digits_val(d) <= 0x7fff_ffff_ffff_ffff
    }
}

/// The value of an integer literal.
pub open spec fn integer_literal_val(s: Seq<char>) -> int {
    if is_neg_literal(s) {
        -digits_val(unsigned_part(s))
    } else {
        digits_val(unsigned_part(s))
    }
}

/// Whether the unsigned digit string `d` is a decimal literal body: digits, a
/// single point, then at least one fractional digit.
pub open spec fn is_decimal_body(d: Seq<char>) -> bool {
    exists|i: int| is_decimal_split(d, i)
}

/// Whether position `i` splits `d` into digits, a point and a non-empty run
/// of fractional digits.
pub open spec fn is_decimal_split(d: Seq<char>, i: int) -> bool {
    &&& 0 <= i < d.len()
    &&& d[i] == '.'
    &&& i + 1 < d.len()
    &&& all_digits(d.subrange(0, i))
    &&& all_digits(d.subrange(i + 1, d.len() as int))
}

/// Whether `s` is a decimal literal: an optional sign, optional integer
/// digits, a point, and at least one fractional digit.
pub open spec fn is_decimal_literal(s: Seq<char>) -> bool {
    is_decimal_body(unsigned_part(s))
}

/// The position of the decimal point of a decimal body.
pub open spec fn decimal_dot(d: Seq<char>) -> int {
    choose|i: int| is_decimal_split(d, i)
}

/// The lexical parts of a decimal literal.
pub open spec fn decimal_literal_parts(s: Seq<char>) -> DecimalLitView {
    let d = unsigned_part(s);
    let i = decimal_dot(d);
    DecimalLitView {
        neg: is_neg_literal(s),
        int_part: d.subrange(0, i),
        frac_part: d.subrange(i + 1, d.len() as int),
    }
}

/// How a raw string classifies as a numeric literal: an in-range integer
/// first, otherwise a decimal, otherwise nothing.
pub open spec fn spec_classify_number(s: Seq<char>) -> Option<NumView> {
    if is_integer_literal(s) {
        Some(NumView::Integer(integer_literal_val(s)))
    } else if is_decimal_literal(s) {
        Some(NumView::Decimal(decimal_literal_parts(s)))
    } else {
        None
    }
}

/// What `Token::new_number` yields on a raw string.
pub open spec fn spec_new_number(s: Seq<char>) -> TokenView {
    match spec_classify_number(s) {
        Some(n) => TokenView::Number(n),
        None => TokenView::InvalidToken(s),
    }
}

/// Whether two strings hold the same characters.
pub fn str_eq(a: &str, b: &str) -> (r: bool)
    ensures
        r == (a@ == b@),
{
    let na = a.unicode_len();
    let nb = b.unicode_len();
    if na != nb {
        return false;
    }
    let mut i: usize = 0;
    while i < na
        invariant
            i <= na,
            na == a@.len(),
            na == b@.len(),
            forall|k: int| 0 <= k < i ==> a@[k] == b@[k],
        decreases na - i,
    {
        if a.get_char(i) != b.get_char(i) {
            return false;
        }
        i += 1;
    }
    proof {
        assert(a@ =~= b@);
    }
    true
}

/// The views of a token sequence.
pub open spec fn views(ts: Seq<Token>) -> Seq<TokenView> {
    ts.map_values(|t: Token| t@)
}

/// The character for a single digit value.
pub open spec fn spec_digit_char(d: int) -> char {
    if d == 0 {
        '0'
    } else if d == 1 {
        '1'
    } else if d == 2 {
        '2'
    } else if d == 3 {
        '3'
    } else if d == 4 {
        '4'
    } else if d == 5 {
        '5'
    } else if d == 6 {
        '6'
    } else if d == 7 {
        '7'
    } else if d == 8 {
        '8'
    } else {
        '9'
    }
}

/// The decimal digits of a non-negative integer, most significant first;
/// empty for zero.
pub open spec fn spec_nat_digits(n: int) -> Seq<char>
    decreases n,
{
    if n <= 0 {
        Seq::empty()
    } else {
        spec_nat_digits(n / 10).push(spec_digit_char(n % 10))
    }
}

/// The canonical decimal rendering of an integer.
pub open spec fn spec_int_string(n: int) -> Seq<char> {
    if n == 0 {
        seq!['0']
    } else if n < 0 {
        seq!['-'] + spec_nat_digits(-n)
    } else {
        spec_nat_digits(n)
    }
}

/// The source text of a numeric literal.
pub open spec fn spec_render_num(n: NumView) -> Seq<char> {
    match n {
        NumView::Integer(i) => spec_int_string(i),
        NumView::Decimal(d) => (if d.neg {
            seq!['-']
        } else {
            Seq::empty()
        }) + d.int_part + seq!['.'] + d.frac_part,
    }
}

/// The text a token renders back to: its source text, a single space for
/// whitespace and a newline for an end-of-line mark.
pub open spec fn spec_render_token(t: TokenView) -> Seq<char> {
    match t {
        TokenView::Paren(ParenType::OpenParen) => seq!['('],
        TokenView::Paren(ParenType::CloseParen) => seq![')'],
        TokenView::Number(n) => spec_render_num(n),
        TokenView::Operator(Op::Add) => seq!['+'],
        TokenView::Operator(Op::Sub) => seq!['-'],
        TokenView::Operator(Op::Mult) => seq!['*'],
        TokenView::Operator(Op::Div) => seq!['/'],
        TokenView::Variable(s) => s,
        TokenView::Whitespace => seq![' '],
        TokenView::EOL => seq!['\n'],
        TokenView::InvalidToken(s) => s,
    }
}

/// The display text of a token, as error messages show it.
pub open spec fn spec_display_token(t: TokenView) -> Seq<char> {
    match t {
        TokenView::Whitespace => seq!['\'', '\''],
        TokenView::EOL => seq!['E', 'o', 'L'],
        TokenView::InvalidToken(s) => seq!['I', 'n', 'v', 'a', 'l', 'i', 'd'],
        _ => spec_render_token(t),
    }
}

/// What `Token::new_paren` yields on a raw string.
pub open spec fn spec_new_paren(s: Seq<char>) -> TokenView {
    match spec_parse_paren(s) {
        Some(p) => TokenView::Paren(p),
        None => TokenView::InvalidToken(s),
    }
}

/// What `Token::new_op` yields on a raw string.
pub open spec fn spec_new_op(s: Seq<char>) -> TokenView {
    match spec_parse_operator(s) {
        Some(o) => TokenView::Operator(o),
        None => TokenView::InvalidToken(s),
    }
}

/// What `Token::new_paren` recognizes.
pub open spec fn spec_parse_paren(s: Seq<char>) -> Option<ParenType> {
    if s.len() == 1 && s[0] == '(' {
        Some(ParenType::OpenParen)
    } else if s.len() == 1 && s[0] == ')' {
        Some(ParenType::CloseParen)
    } else {
        None
    }
}

/// What `Token::new_op` recognizes.
pub open spec fn spec_parse_operator(s: Seq<char>) -> Option<Op> {
    if s.len() == 1 && s[0] == '+' {
        Some(Op::Add)
    } else if s.len() == 1 && s[0] == '-' {
        Some(Op::Sub)
    } else if s.len() == 1 && s[0] == '*' {
        Some(Op::Mult)
    } else if s.len() == 1 && s[0] == '/' {
        Some(Op::Div)
    } else {
        None
    }
}

impl View for DecimalLit {
    type V = DecimalLitView;

    open spec fn view(&self) -> DecimalLitView {
        DecimalLitView { neg: self.neg, int_part: self.int_part@, frac_part: self.frac_part@ }
    }
}

impl View for Num {
    type V = NumView;

    open spec fn view(&self) -> NumView {
        match self {
            Num::Integer(i) => NumView::Integer(*i as int),
            Num::Decimal(d) => NumView::Decimal(d@),
        }
    }
}

impl View for Token {
    type V = TokenView;

    open spec fn view(&self) -> TokenView {
        match self {
            Token::Paren(p) => TokenView::Paren(*p),
            Token::Number(n) => TokenView::Number(n@),
            Token::Operator(o) => TokenView::Operator(*o),
            Token::Variable(s) => TokenView::Variable(s@),
            Token::Whitespace => TokenView::Whitespace,
            Token::EOL => TokenView::EOL,
            Token::InvalidToken(s) => TokenView::InvalidToken(s@),
        }
    }
}

impl Clone for DecimalLit {
    fn clone(&self) -> (r: Self)
        ensures
            r@ == self@,
    {
        DecimalLit {
            neg: self.neg,
            int_part: self.int_part.clone(),
            frac_part: self.frac_part.clone(),
        }
    }
}

impl Clone for Num {
    fn clone(&self) -> (r: Self)
        ensures
            r@ == self@,
    {
        match self {
            Num::Integer(i) => Num::Integer(*i),
            Num::Decimal(d) => Num::Decimal(d.clone()),
        }
    }
}

impl Clone for Token {
    fn clone(&self) -> (r: Self)
        ensures
            r@ == self@,
    {
        match self {
            Token::Paren(p) => Token::Paren(*p),
            Token::Number(n) => Token::Number(n.clone()),
            Token::Operator(o) => Token::Operator(*o),
            Token::Variable(s) => Token::Variable(s.clone()),
            Token::Whitespace => Token::Whitespace,
            Token::EOL => Token::EOL,
            Token::InvalidToken(s) => Token::InvalidToken(s.clone()),
        }
    }
}

impl PartialEq for DecimalLit {
    fn eq(&self, other: &Self) -> (r: bool) {
        self.neg == other.neg && self.int_part == other.int_part
            && self.frac_part == other.frac_part
    }
}

impl vstd::std_specs::cmp::PartialEqSpecImpl for DecimalLit {
    open spec fn obeys_eq_spec() -> bool {
        true
    }

    open spec fn eq_spec(&self, other: &Self) -> bool {
        self@ == other@
    }
}

impl PartialEq for Num {
    fn eq(&self, other: &Self) -> (r: bool) {
        match (self, other) {
            (Num::Integer(a), Num::Integer(b)) => *a == *b,
            (Num::Decimal(a), Num::Decimal(b)) => *a == *b,
            _ => false,
        }
    }
}

impl vstd::std_specs::cmp::PartialEqSpecImpl for Num {
    open spec fn obeys_eq_spec() -> bool {
        true
    }

    open spec fn eq_spec(&self, other: &Self) -> bool {
        self@ == other@
    }
}

impl PartialEq for Token {
    fn eq(&self, other: &Self) -> (r: bool) {
        match (self, other) {
            (Token::Paren(a), Token::Paren(b)) => *a == *b,
            (Token::Number(a), Token::Number(b)) => *a == *b,
            (Token::Operator(a), Token::Operator(b)) => *a == *b,
            (Token::Variable(a), Token::Variable(b)) => *a == *b,
            (Token::Whitespace, Token::Whitespace) => true,
            (Token::EOL, Token::EOL) => true,
            (Token::InvalidToken(a), Token::InvalidToken(b)) => *a == *b,
            _ => false,
        }
    }
}

impl vstd::std_specs::cmp::PartialEqSpecImpl for Token {
    open spec fn obeys_eq_spec() -> bool {
        true
    }

    open spec fn eq_spec(&self, other: &Self) -> bool {
        self@ == other@
    }
}

/// A digit string has a non-negative value.
pub proof fn lemma_digits_val_nonneg(s: Seq<char>)
    requires
        all_digits(s),
    ensures
        digits_val(s) >= 0,
    decreases s.len(),
{
    if s.len() > 0 {
        lemma_digits_val_nonneg(s.drop_last());
    }
}

/// A decimal body splits at only one position.
pub proof fn lemma_decimal_split_unique(d: Seq<char>, i: int, j: int)
    requires
        is_decimal_split(d, i),
        is_decimal_split(d, j),
    ensures
        i == j,
{
    if i < j {
        assert(d.subrange(i + 1, d.len() as int)[j - i - 1] == d[j]);
    } else if j < i {
        assert(d.subrange(j + 1, d.len() as int)[i - j - 1] == d[i]);
    }
}

/// Whether `c` is an ASCII decimal digit (executable form).
pub fn is_digit_char(c: char) -> (r: bool)
    ensures
        r == is_digit(c),
{
    let u = c as u32;
    48 <= u && u <= 57
}

impl Token {
    /// Classifies `value` as a numeric literal token: an in-range base-10
    /// integer, else a decimal with a digit-containing fractional part, else
    /// an invalid token.
    pub fn new_number(value: &str) -> (r: Self)
        ensures
            r@ == spec_new_number(value@),
    {
        if let Some(num) = Self::parse_number(value) {
            Token::Number(num)
        } else {
            Token::InvalidToken(value.to_owned())
        }
    }

    /// Classifies `value` as a parenthesis token, else an invalid token.
    pub fn new_paren(value: &str) -> (r: Self)
        ensures
            r@ == spec_new_paren(value@),
    {
        if let Some(paren) = Self::parse_paren(value) {
            Token::Paren(paren)
        } else {
            Token::InvalidToken(value.to_owned())
        }
    }

    /// Classifies `value` as an operator token, else an invalid token.
    pub fn new_op(value: &str) -> (r: Self)
        ensures
            r@ == spec_new_op(value@),
    {
        if let Some(op) = Self::parse_operator(value) {
            Token::Operator(op)
        } else {
            Token::InvalidToken(value.to_owned())
        }
    }

    /// Wraps `value` verbatim as a variable token.
    pub fn new_variable(value: &str) -> (r: Self)
        ensures
            r@ == TokenView::Variable(value@),
    {
        Token::Variable(value.to_owned())
    }

    fn parse_paren(value: &str) -> (r: Option<ParenType>)
        ensures
            r == spec_parse_paren(value@),
    {
        if value.unicode_len() == 1 {
            let c = value.get_char(0);
            if c == '(' {
                Some(ParenType::OpenParen)
            } else if c == ')' {
                Some(ParenType::CloseParen)
            } else {
                None
            }
        } else {
            None
        }
    }

    fn parse_operator(value: &str) -> (r: Option<Op>)
        ensures
            r == spec_parse_operator(value@),
    {
        if value.unicode_len() == 1 {
            let c = value.get_char(0);
            if c == '+' {
                Some(Op::Add)
            } else if c == '-' {
                Some(Op::Sub)
            } else if c == '*' {
                Some(Op::Mult)
            } else if c == '/' {
                Some(Op::Div)
            } else {
                None
            }
        } else {
            None
        }
    }

    fn parse_number(value: &str) -> (r: Option<Num>)
        ensures
            match r {
                Some(num) => spec_classify_number(value@) == Some(num@),
                None => spec_classify_number(value@) is None,
            },
    {
        let n = value.unicode_len();
        if n == 0 {
            return None;
        }
        let c0 = value.get_char(0);
        let neg = c0 == '-';
        let start: usize = if c0 == '-' || c0 == '+' {
            1
        } else {
            0
        };
        if start == n {
            return None;
        }
        let ghost u = value@.subrange(start as int, n as int);
        proof {
            assert(unsigned_part(value@) =~= u);
        }
        // One pass to find the decimal point and reject foreign characters.
        let mut dot: Option<usize> = None;
        let mut i: usize = start;
        while i < n
            invariant
                start <= i <= n,
                match dot {
                    None => forall|k: int|
                        start <= k < i ==> is_digit(#[trigger] value@[k]),
                    Some(dt) => {
                        &&& start <= dt < i
                        &&& value@[dt as int] == '.'
                        &&& forall|k: int|
                            start <= k < i && k != dt ==> is_digit(#[trigger] value@[k])
                    },
                },
            decreases n - i,
        {
            let c = value.get_char(i);
            if is_digit_char(c) {
            } else if c == '.' && dot.is_none() {
                dot = Some(i);
            } else {
                proof {
                    lemma_not_a_number(value@, u, start as int, i as int, dot);
                }
                return None;
            }
            i += 1;
        }
        match dot {
            None => {
                assert(all_digits(u));
                Self::parse_integer_digits(value, start, neg)
            },
            Some(dt) => {
                proof {
                    assert(!is_digit(u[dt - start]));
                    assert(!all_digits(u));
                }
                if dt + 1 == n {
                    proof {
                        assert forall|j: int| !is_decimal_split(u, j) by {
                            if is_decimal_split(u, j) {
                                if j != dt - start {
                                    if j < dt - start {
                                        assert(u.subrange(j + 1, u.len() as int)[dt - start - j
                                            - 1] == u[dt - start]);
                                    } else {
                                        assert(u.subrange(0, j)[dt - start] == u[dt - start]);
                                    }
                                }
                            }
                        }
                    }
                    return None;
                }
                let int_part = value.substring_char(start, dt).to_owned();
                let frac_part = value.substring_char(dt + 1, n).to_owned();
                proof {
                    let j = dt - start;
                    assert forall|k: int| 0 <= k < u.subrange(0, j).len() implies is_digit(
                        #[trigger] u.subrange(0, j)[k],
                    ) by {
                        assert(u.subrange(0, j)[k] == value@[start + k]);
                    }
                    assert forall|k: int| 0 <= k < u.subrange(j + 1, u.len() as int).len() implies
                        is_digit(#[trigger] u.subrange(j + 1, u.len() as int)[k]) by {
                        assert(u.subrange(j + 1, u.len() as int)[k] == value@[dt + 1 + k]);
                    }
                    assert(is_decimal_split(u, j));
                    lemma_decimal_split_unique(u, decimal_dot(u), j);
                    assert(int_part@ =~= u.subrange(0, j));
                    assert(frac_part@ =~= u.subrange(j + 1, u.len() as int));
                }
                Some(Num::Decimal(DecimalLit { neg, int_part, frac_part }))
            },
        }
    }

    /// Accumulates the digits of `value` after the sign, which the caller has
    /// already checked to be all digits, and range-checks the result.
    fn parse_integer_digits(value: &str, start: usize, neg: bool) -> (r: Option<Num>)
        requires
            start < value@.len(),
            start == 0 || start == 1,
            start == 1 ==> has_sign(value@),
            start == 0 ==> !has_sign(value@),
            neg <==> is_neg_literal(value@),
            all_digits(value@.subrange(start as int, value@.len() as int)),
        ensures
            match r {
                Some(num) => spec_classify_number(value@) == Some(num@),
                None => spec_classify_number(value@) is None,
            },
    {
        let n = value.unicode_len();
        let ghost u = value@.subrange(start as int, n as int);
        proof {
            assert(unsigned_part(value@) =~= u);
        }
        let mut acc: u128 = 0;
        let mut over = false;
        let mut i: usize = start;
        while i < n
            invariant
                start <= i <= n,
                !over ==> acc == digits_val(value@.subrange(start as int, i as int)) && acc
                    <= 0x8000_0000_0000_0000u128,
                over ==> digits_val(value@.subrange(start as int, i as int))
                    > 0x8000_0000_0000_0000,
            decreases n - i,
        {
            let c = value.get_char(i);
            assert(value@.subrange(start as int, n as int)[i - start] == value@[i as int]);
            assert(is_digit(value@[i as int]));
            let d = (c as u32 - 48) as u128;
            proof {
                assert(value@.subrange(start as int, i + 1).drop_last() =~= value@.subrange(
                    start as int,
                    i as int,
                ));
            }
            if !over {
                acc = acc * 10 + d;
                if acc > 0x8000_0000_0000_0000u128 {
                    over = true;
                }
            }
            i += 1;
        }
        proof {
            assert(!all_digits(u) ==> false);
            lemma_digits_val_nonneg(u);
            assert forall|j: int| !is_decimal_split(u, j) by {
                if 0 <= j < u.len() {
                    assert(is_digit(u[j]));
                }
            }
        }
        if over {
            None
        } else if neg {
            let v = (-(acc as i128)) as i64;
            Some(Num::Integer(v))
        } else if acc <= 0x7fff_ffff_ffff_ffffu128 {
            Some(Num::Integer(acc as i64))
        } else {
            None
        }
    }
}

/// The characters of a digit stack, least significant digit first in the
/// stack, rendered most significant first.
spec fn chars_of_rev_digits(ds: Seq<u64>) -> Seq<char>
    decreases ds.len(),
{
    if ds.len() == 0 {
        Seq::empty()
    } else {
        seq![spec_digit_char(ds.last() as int)] + chars_of_rev_digits(ds.drop_last())
    }
}

/// The single-character string for a digit value.
fn digit_str(d: u64) -> (r: &'static str)
    requires
        d < 10,
    ensures
        r@ =~= seq![spec_digit_char(d as int)],
{
    proof {
        reveal_strlit("0");
        reveal_strlit("1");
        reveal_strlit("2");
        reveal_strlit("3");
        reveal_strlit("4");
        reveal_strlit("5");
        reveal_strlit("6");
        reveal_strlit("7");
        reveal_strlit("8");
        reveal_strlit("9");
    }
    match d {
        0 => "0",
        1 => "1",
        2 => "2",
        3 => "3",
        4 => "4",
        5 => "5",
        6 => "6",
        7 => "7",
        8 => "8",
        _ => "9",
    }
}

/// Renders a non-negative integer in decimal.
pub fn nat_to_string(n: u64) -> (r: String)
    ensures
        r@ == spec_int_string(n as int),
{
    if n == 0 {
        proof {
            reveal_strlit("0");
        }
        let z = "0".to_owned();
        assert(z@ =~= spec_int_string(0));
        return z;
    }
    let mut digs: Vec<u64> = Vec::new();
    let mut m = n;
    while m > 0
        invariant
            spec_nat_digits(n as int) =~= spec_nat_digits(m as int) + chars_of_rev_digits(digs@),
            forall|k: int| 0 <= k < digs@.len() ==> #[trigger] digs@[k] < 10,
        decreases m,
    {
        let d = m % 10;
        proof {
            assert(digs@.push(d).drop_last() =~= digs@);
            assert(spec_nat_digits(m as int) =~= spec_nat_digits(m as int / 10) + seq![
                spec_digit_char(m as int % 10),
            ]);
            assert(spec_nat_digits(m as int / 10) + (seq![spec_digit_char(d as int)]
                + chars_of_rev_digits(digs@)) =~= (spec_nat_digits(m as int / 10) + seq![
                spec_digit_char(d as int),
            ]) + chars_of_rev_digits(digs@));
        }
        digs.push(d);
        m = m / 10;
    }
    let mut s = String::new();
    let mut i = digs.len();
    proof {
        assert(digs@.subrange(0, digs@.len() as int) =~= digs@);
    }
    while i > 0
        invariant
            i <= digs@.len(),
            s@ + chars_of_rev_digits(digs@.subrange(0, i as int)) =~= chars_of_rev_digits(digs@),
            forall|k: int| 0 <= k < digs@.len() ==> #[trigger] digs@[k] < 10,
        decreases i,
    {
        i = i - 1;
        let ghost pre = s@;
        s.append(digit_str(digs[i]));
        proof {
            assert(digs@.subrange(0, i + 1).last() == digs@[i as int]);
            assert(digs@.subrange(0, i + 1).drop_last() =~= digs@.subrange(0, i as int));
            assert(pre + (seq![spec_digit_char(digs@[i as int] as int)] + chars_of_rev_digits(
                digs@.subrange(0, i as int),
            )) =~= (pre + seq![spec_digit_char(digs@[i as int] as int)]) + chars_of_rev_digits(
                digs@.subrange(0, i as int),
            ));
        }
    }
    proof {
        assert(digs@.subrange(0, 0) =~= Seq::<u64>::empty());
        assert(s@ =~= s@ + chars_of_rev_digits(digs@.subrange(0, 0)));
    }
    s
}

/// Renders a signed 64-bit integer in decimal.
pub fn int_to_string(v: i64) -> (r: String)
    ensures
        r@ == spec_int_string(v as int),
{
    if v >= 0 {
        nat_to_string(v as u64)
    } else {
        let mag: u64 = if v == i64::MIN {
            0x8000_0000_0000_0000u64
        } else {
            (-v) as u64
        };
        proof {
            reveal_strlit("-");
        }
        let mut s = "-".to_owned();
        let digits = nat_to_string(mag);
        s.append(digits.as_str());
        proof {
            assert(s@ =~= seq!['-'] + spec_nat_digits(-(v as int)));
        }
        s
    }
}

impl Token {
    /// Renders the token back to expression text: numbers and variables as
    /// their source text, whitespace as a single space, an end-of-line mark
    /// as a newline.
    pub fn render(&self) -> (r: String)
        ensures
            r@ == spec_render_token(self@),
    {
        match self {
            Token::Paren(ParenType::OpenParen) => {
                proof {
                    reveal_strlit("(");
                }
                let r = "(".to_owned();
                assert(r@ =~= seq!['(']);
                r
            },
            Token::Paren(ParenType::CloseParen) => {
                proof {
                    reveal_strlit(")");
                }
                let r = ")".to_owned();
                assert(r@ =~= seq![')']);
                r
            },
            Token::Operator(Op::Add) => {
                proof {
                    reveal_strlit("+");
                }
                let r = "+".to_owned();
                assert(r@ =~= seq!['+']);
                r
            },
            Token::Operator(Op::Sub) => {
                proof {
                    reveal_strlit("-");
                }
                let r = "-".to_owned();
                assert(r@ =~= seq!['-']);
                r
            },
            Token::Operator(Op::Mult) => {
                proof {
                    reveal_strlit("*");
                }
                let r = "*".to_owned();
                assert(r@ =~= seq!['*']);
                r
            },
            Token::Operator(Op::Div) => {
                proof {
                    reveal_strlit("/");
                }
                let r = "/".to_owned();
                assert(r@ =~= seq!['/']);
                r
            },
            Token::Number(Num::Integer(i)) => int_to_string(*i),
            Token::Number(Num::Decimal(d)) => {
                proof {
                    reveal_strlit("-");
                    reveal_strlit(".");
                }
                let mut s = String::new();
                if d.neg {
                    s.append("-");
                }
                s.append(d.int_part.as_str());
                s.append(".");
                s.append(d.frac_part.as_str());
                assert(s@ =~= spec_render_num(NumView::Decimal(d@)));
                s
            },
            Token::Variable(name) => name.clone(),
            Token::Whitespace => {
                proof {
                    reveal_strlit(" ");
                }
                let r = " ".to_owned();
                assert(r@ =~= seq![' ']);
                r
            },
            Token::EOL => {
                proof {
                    reveal_strlit("\n");
                }
                let r = "\n".to_owned();
                assert(r@ =~= seq!['\n']);
                r
            },
            Token::InvalidToken(text) => text.clone(),
        }
    }

    /// The display text of the token, as error messages show it.
    pub fn display_text(&self) -> (r: String)
        ensures
            r@ == spec_display_token(self@),
    {
        match self {
            Token::Whitespace => {
                proof {
                    reveal_strlit("''");
                }
                let r = "''".to_owned();
                assert(r@ =~= seq!['\'', '\'']);
                r
            },
            Token::EOL => {
                proof {
                    reveal_strlit("EoL");
                }
                let r = "EoL".to_owned();
                assert(r@ =~= seq!['E', 'o', 'L']);
                r
            },
            Token::InvalidToken(_) => {
                proof {
                    reveal_strlit("Invalid");
                }
                let r = "Invalid".to_owned();
                assert(r@ =~= seq!['I', 'n', 'v', 'a', 'l', 'i', 'd']);
                r
            },
            _ => self.render(),
        }
    }
}

/// A character that is neither a digit nor a first decimal point makes the
/// whole string fail to classify as a number.
proof fn lemma_not_a_number(s: Seq<char>, u: Seq<char>, start: int, i: int, dot: Option<usize>)
    requires
        0 <= start <= i < s.len(),
        start <= 1,
        u == s.subrange(start, s.len() as int),
        unsigned_part(s) == u,
        !is_digit(s[i]),
        match dot {
            None => (forall|k: int| start <= k < i ==> is_digit(#[trigger] s[k])) && s[i] != '.',
            Some(dt) => {
                &&& start <= dt < i
                &&& s[dt as int] == '.'
                &&& forall|k: int| start <= k < i && k != dt ==> is_digit(#[trigger] s[k])
            },
        },
    ensures
        spec_classify_number(s) is None,
{
    // Not an integer: some character after the sign is not a digit.
    let bad = match dot {
        None => i,
        Some(dt) => dt as int,
    };
    assert(u[bad - start] == s[bad]);
    assert(!all_digits(u));
    // Not a decimal: any split position leaves a non-digit, non-point
    // character inside a digits-only region.
    assert forall|j: int| !is_decimal_split(u, j) by {
        if is_decimal_split(u, j) {
            match dot {
                None => {
                    // `s[i]` is not a digit and not the point.
                    assert(u[i - start] == s[i]);
                    if j < i - start {
                        assert(u.subrange(j + 1, u.len() as int)[i - start - j - 1] == u[i
                            - start]);
                    } else if j > i - start {
                        assert(u.subrange(0, j)[i - start] == u[i - start]);
                    }
                },
                Some(dt) => {
                    // Two point characters cannot both be the split.
                    let a = dt - start;
                    let b = i - start;
                    assert(u[a] == s[dt as int]);
                    assert(u[b] == s[i]);
                    if s[i] == '.' {
                        if j != a {
                            if j < a {
                                assert(u.subrange(j + 1, u.len() as int)[a - j - 1] == u[a]);
                            } else {
                                assert(u.subrange(0, j)[a] == u[a]);
                            }
                        } else {
                            if j < b {
                                assert(u.subrange(j + 1, u.len() as int)[b - j - 1] == u[b]);
                            } else {
                                assert(u.subrange(0, j)[b] == u[b]);
                            }
                        }
                    } else {
                        if j < b {
                            assert(u.subrange(j + 1, u.len() as int)[b - j - 1] == u[b]);
                        } else if j > b {
                            assert(u.subrange(0, j)[b] == u[b]);
                        }
                    }
                },
            }
        }
    }
}

} // verus!
