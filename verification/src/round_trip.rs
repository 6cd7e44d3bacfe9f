//! The scanner's round-trip law: rendering the tokens of a successful scan
//! back to text and scanning that text yields the same tokens, so operator,
//! number and parenthesis identity survive re-rendering even though
//! whitespace collapses.
use crate::lexical_analyzer::{
    ext_char, is_ascii_letter, spec_is_whitespace, spec_munch, spec_scan, spec_token_from_state,
    spec_transition, State,
};
use crate::tokens::{
    all_digits, digit_val, digits_val, is_decimal_body, is_decimal_split, is_digit,
    lemma_decimal_split_unique, lemma_digits_val_nonneg, spec_digit_char, spec_int_string,
    spec_nat_digits, spec_render_token, NumView, TokenView,
};
use vstd::prelude::*;

verus! {

/// The text a token sequence renders back to: each token's text followed
/// by a single space.
pub open spec fn spec_render_all(ts: Seq<TokenView>) -> Seq<char>
    decreases ts.len(),
{
    if ts.len() == 0 {
        Seq::empty()
    } else {
        spec_render_token(ts.first()) + seq![' '] + spec_render_all(ts.drop_first())
    }
}

/// Whether `c` can start a variable name.
pub open spec fn is_var_start(c: char) -> bool {
    is_ascii_letter(c) || c == '_'
}

/// Whether `c` can continue a variable name.
pub open spec fn is_var_char(c: char) -> bool {
    is_ascii_letter(c) || is_digit(c) || c == '_'
}

/// The token shapes a successful scan can yield: unsigned in-range
/// integers, unsigned decimals with a fractional digit, well-formed
/// variable names, operators, parentheses and end-of-line marks — never
/// whitespace or invalid text.
pub open spec fn spec_scan_token_wf(t: TokenView) -> bool {
    match t {
        TokenView::Paren(_) => true,
        TokenView::Operator(_) => true,
        TokenView::EOL => true,
        TokenView::Number(NumView::Integer(i)) => 0 <= i <= 0x7fff_ffff_ffff_ffff,
        TokenView::Number(NumView::Decimal(d)) => {
            &&& !d.neg
            &&& all_digits(d.int_part)
            &&& all_digits(d.frac_part)
            &&& d.frac_part.len() >= 1
        },
        TokenView::Variable(v) => {
            &&& v.len() >= 1
            &&& is_var_start(v[0])
            &&& forall|i: int| 0 <= i < v.len() ==> is_var_char(#[trigger] v[i])
        },
        _ => false,
    }
}

/// The characters consumed so far, with the synthetic trailing newline.
pub open spec fn ext_range(s: Seq<char>, a: int, b: int) -> Seq<char> {
    Seq::new((b - a) as nat, |k: int| ext_char(s, a + k))
}

/// What the consumed text looks like in each scanner state.
pub open spec fn state_text(st: State, text: Seq<char>) -> bool {
    match st {
        State::Initial => text.len() == 0,
        State::Integer => text.len() >= 1 && all_digits(text),
        State::FloatStart => text.len() >= 1 && text.last() == '.' && all_digits(text.drop_last()),
        State::Float => is_decimal_body(text),
        State::Whitespace => text.len() >= 1 && (forall|i: int|
            0 <= i < text.len() ==> spec_is_whitespace(#[trigger] text[i])),
        State::Variable => {
            &&& text.len() >= 1
            &&& is_var_start(text[0])
            &&& forall|i: int| 0 <= i < text.len() ==> is_var_char(#[trigger] text[i])
        },
        State::EOL => text =~= seq!['\n'],
        State::OpenParen => text =~= seq!['('],
        State::CloseParen => text =~= seq![')'],
        State::Minus => text =~= seq!['-'],
        State::Plus => text =~= seq!['+'],
        State::Multiply => text =~= seq!['*'],
        State::Divide => text =~= seq!['/'],
    }
}

/// One transition extends the consumed text consistently with its state.
proof fn lemma_transition_text(st: State, c: char, st2: State, text: Seq<char>)
    requires
        spec_transition(st, c) == Some(st2),
        state_text(st, text),
    ensures
        state_text(st2, text.push(c)),
{
    let t2 = text.push(c);
    assert(t2.last() == c);
    assert(t2.drop_last() =~= text);
    match st2 {
        State::Integer => {
            assert forall|i: int| 0 <= i < t2.len() implies is_digit(#[trigger] t2[i]) by {
                if i < text.len() {
                    assert(t2[i] == text[i]);
                }
            }
        },
        State::FloatStart => {
            assert(all_digits(t2.drop_last()));
        },
        State::Float => {
            // From `FloatStart` the point sits just before the new digit;
            // from `Float` the existing split carries over.
            if st is FloatStart {
                let j = text.len() - 1;
                assert(text[j] == '.');
                assert forall|i: int| 0 <= i < t2.subrange(0, j).len() implies is_digit(
                    #[trigger] t2.subrange(0, j)[i],
                ) by {
                    assert(t2.subrange(0, j)[i] == text.drop_last()[i]);
                }
                assert forall|i: int| 0 <= i < t2.subrange(j + 1, t2.len() as int).len()
                    implies is_digit(#[trigger] t2.subrange(j + 1, t2.len() as int)[i]) by {
                    assert(t2.subrange(j + 1, t2.len() as int)[i] == c);
                }
                assert(is_decimal_split(t2, j));
            } else {
                let j = choose|j: int| is_decimal_split(text, j);
                assert(is_decimal_split(text, j));
                assert forall|i: int| 0 <= i < t2.subrange(0, j).len() implies is_digit(
                    #[trigger] t2.subrange(0, j)[i],
                ) by {
                    assert(t2.subrange(0, j)[i] == text.subrange(0, j)[i]);
                }
                assert forall|i: int| 0 <= i < t2.subrange(j + 1, t2.len() as int).len()
                    implies is_digit(#[trigger] t2.subrange(j + 1, t2.len() as int)[i]) by {
                    if i < text.len() - j - 1 {
                        assert(t2.subrange(j + 1, t2.len() as int)[i] == text.subrange(
                            j + 1,
                            text.len() as int,
                        )[i]);
                    } else {
                        assert(t2.subrange(j + 1, t2.len() as int)[i] == c);
                    }
                }
                assert(is_decimal_split(t2, j));
            }
        },
        State::Whitespace => {
            assert forall|i: int| 0 <= i < t2.len() implies spec_is_whitespace(
                #[trigger] t2[i],
            ) by {
                if i < text.len() {
                    assert(t2[i] == text[i]);
                }
            }
        },
        State::Variable => {
            assert(t2[0] == if text.len() == 0 {
                c
            } else {
                text[0]
            });
            assert forall|i: int| 0 <= i < t2.len() implies is_var_char(#[trigger] t2[i]) by {
                if i < text.len() {
                    assert(t2[i] == text[i]);
                }
            }
        },
        _ => {},
    }
}

/// Munching keeps the consumed text consistent with the state reached.
proof fn lemma_munch_text(s: Seq<char>, start: int, pos: int, st: State)
    requires
        0 <= start <= pos,
        state_text(st, ext_range(s, start, pos)),
    ensures
        ({
            let (end, st2) = spec_munch(s, pos, st);
            state_text(st2, ext_range(s, start, end))
        }),
    decreases s.len() + 1 - pos,
{
    if pos <= s.len() {
        match spec_transition(st, ext_char(s, pos)) {
            None => {},
            Some(next) => {
                assert(ext_range(s, start, pos + 1) =~= ext_range(s, start, pos).push(
                    ext_char(s, pos),
                ));
                lemma_transition_text(st, ext_char(s, pos), next, ext_range(s, start, pos));
                lemma_munch_text(s, start, pos + 1, next);
            },
        }
    }
}

/// A digit string holds no decimal point, so it is no decimal body.
proof fn lemma_digits_not_decimal(text: Seq<char>)
    requires
        all_digits(text),
    ensures
        !is_decimal_body(text),
{
    assert forall|j: int| !is_decimal_split(text, j) by {
        if 0 <= j < text.len() {
            assert(is_digit(text[j]));
        }
    }
}

/// The tokens of a successful scan are well formed.
pub proof fn lemma_scan_tokens_wf(s: Seq<char>, pos: int)
    requires
        0 <= pos <= s.len() + 1,
    ensures
        spec_scan(s, pos) matches Ok(toks) ==> forall|i: int|
            0 <= i < toks.len() ==> spec_scan_token_wf(#[trigger] toks[i]),
    decreases s.len() + 1 - pos,
{
    let (end, state) = spec_munch(s, pos, State::Initial);
    crate::lexical_analyzer::lemma_munch_bounds(s, pos, State::Initial);
    if end <= s.len() {
        let text = s.subrange(pos, end);
        assert(ext_range(s, pos, pos) =~= Seq::<char>::empty());
        lemma_munch_text(s, pos, pos, State::Initial);
        assert(ext_range(s, pos, end) =~= text);
        let potential = spec_token_from_state(state, text);
        if !(potential is InvalidToken) {
            lemma_scan_tokens_wf(s, end);
            match state {
                State::Integer => {
                    assert(!crate::tokens::has_sign(text));
                    assert(crate::tokens::unsigned_part(text) == text);
                    lemma_digits_val_nonneg(text);
                    lemma_digits_not_decimal(text);
                    assert(spec_scan_token_wf(potential));
                },
                State::Float => {
                    let j = choose|j: int| is_decimal_split(text, j);
                    assert(is_decimal_split(text, j));
                    assert(text[0] == '.' || is_digit(text[0])) by {
                        if j == 0 {
                        } else {
                            assert(text.subrange(0, j)[0] == text[0]);
                        }
                    }
                    assert(!crate::tokens::has_sign(text));
                    assert(crate::tokens::unsigned_part(text) == text);
                    assert(!crate::tokens::is_integer_literal(text)) by {
                        assert(!is_digit(text[j]));
                    }
                    assert(crate::tokens::is_decimal_literal(text));
                    assert(spec_scan_token_wf(potential));
                },
                _ => {},
            }
            if spec_scan(s, end) is Ok {
                let rest = spec_scan(s, end)->Ok_0;
                if !(potential is Whitespace) {
                    assert forall|i: int|
                        0 <= i < (seq![potential] + rest).len() implies spec_scan_token_wf(
                        #[trigger] (seq![potential] + rest)[i],
                    ) by {
                        if i > 0 {
                            assert((seq![potential] + rest)[i] == rest[i - 1]);
                        }
                    }
                }
            }
        }
    }
}

/// Munching passes over a run of characters that keep the state.
proof fn lemma_munch_run(s: Seq<char>, pos: int, end: int, st: State)
    requires
        0 <= pos <= end,
        forall|k: int| pos <= k < end ==> spec_transition(st, ext_char(s, k)) == Some(st),
    ensures
        spec_munch(s, pos, st) == spec_munch(s, end, st),
    decreases end - pos,
{
    if pos < end {
        if pos > s.len() {
            // No state survives the synthetic newline, so a run never
            // starts past the end.
            assert(ext_char(s, pos) == '\n');
            assert(false);
        } else {
            lemma_munch_run(s, pos + 1, end, st);
        }
    }
}

/// The digits of a non-negative number are digits.
proof fn lemma_nat_digits_are_digits(n: int)
    ensures
        all_digits(spec_nat_digits(n)),
        n >= 1 ==> spec_nat_digits(n).len() >= 1,
    decreases n,
{
    if n > 0 {
        lemma_nat_digits_are_digits(n / 10);
        let d = spec_nat_digits(n / 10);
        let t = d.push(spec_digit_char(n % 10));
        assert forall|i: int| 0 <= i < t.len() implies is_digit(#[trigger] t[i]) by {
            if i < d.len() {
                assert(t[i] == d[i]);
            } else {
                assert(t[i] == spec_digit_char(n % 10));
            }
        }
    }
}

/// Rendering then reading a non-negative number restores its value.
proof fn lemma_digits_val_nat_digits(n: int)
    requires
        n >= 0,
    ensures
        digits_val(spec_nat_digits(n)) == n,
    decreases n,
{
    if n > 0 {
        lemma_digits_val_nat_digits(n / 10);
        let d = spec_nat_digits(n / 10);
        let t = d.push(spec_digit_char(n % 10));
        assert(t.drop_last() =~= d);
        assert(digit_val(spec_digit_char(n % 10)) == n % 10);
    }
}

/// A well-formed token renders to at least one character, and its first
/// character is no whitespace.
proof fn lemma_render_head(t: TokenView)
    requires
        spec_scan_token_wf(t),
    ensures
        spec_render_token(t).len() >= 1,
        !spec_is_whitespace(spec_render_token(t)[0]),
{
    match t {
        TokenView::Number(NumView::Integer(i)) => {
            lemma_nat_digits_are_digits(i);
            if i > 0 {
                assert(is_digit(spec_int_string(i)[0]));
            }
        },
        TokenView::Number(NumView::Decimal(d)) => {
            let r = spec_render_token(t);
            if d.int_part.len() >= 1 {
                assert(r[0] == d.int_part[0]);
                assert(is_digit(d.int_part[0]));
            } else {
                assert(r[0] == '.');
            }
        },
        _ => {},
    }
}

/// Scanning the rendered text of one well-formed token, followed by a
/// space, consumes exactly the rendered text and resolves to that token.
proof fn lemma_munch_token(t: TokenView, tail: Seq<char>)
    requires
        spec_scan_token_wf(t),
        tail.len() >= 1,
        tail[0] == ' ',
    ensures
        ({
            let s = spec_render_token(t) + tail;
            let (end, st) = spec_munch(s, 0, State::Initial);
            end == spec_render_token(t).len() && spec_token_from_state(st, s.subrange(0, end))
                == t && !(spec_token_from_state(st, s.subrange(0, end)) is InvalidToken)
        }),
{
    let rt = spec_render_token(t);
    let s = rt + tail;
    let n = rt.len() as int;
    assert(s.len() == rt.len() + tail.len());
    assert(ext_char(s, n) == ' ');
    match t {
        TokenView::Paren(p) => {
            assert(ext_char(s, 0) == rt[0]);
            let st1 = if p is OpenParen {
                State::OpenParen
            } else {
                State::CloseParen
            };
            assert(spec_transition(State::Initial, ext_char(s, 0)) == Some(st1));
            assert(spec_munch(s, 1, st1) == (1int, st1));
            assert(spec_munch(s, 0, State::Initial) == (1int, st1));
            assert(s.subrange(0, 1) =~= rt);
            assert(spec_token_from_state(st1, s.subrange(0, 1)) == t);
        },
        TokenView::Operator(op) => {
            let st1 = match op {
                crate::tokens::Op::Add => State::Plus,
                crate::tokens::Op::Sub => State::Minus,
                crate::tokens::Op::Mult => State::Multiply,
                crate::tokens::Op::Div => State::Divide,
            };
            assert(ext_char(s, 0) == rt[0]);
            assert(spec_transition(State::Initial, ext_char(s, 0)) == Some(st1));
            assert(spec_munch(s, 1, st1) == (1int, st1));
            assert(s.subrange(0, 1) =~= rt);
            assert(spec_munch(s, 0, State::Initial) == (1int, st1));
            assert(spec_token_from_state(st1, s.subrange(0, 1)) == t);
        },
        TokenView::EOL => {
            assert(ext_char(s, 0) == rt[0]);
            assert(spec_transition(State::Initial, ext_char(s, 0)) == Some(State::EOL));
            assert(spec_munch(s, 1, State::EOL) == (1int, State::EOL));
            assert(s.subrange(0, 1) =~= rt);
            assert(spec_munch(s, 0, State::Initial) == (1int, State::EOL));
            assert(spec_token_from_state(State::EOL, s.subrange(0, 1)) == t);
        },
        TokenView::Variable(v) => {
            assert(ext_char(s, 0) == v[0]);
            assert(spec_transition(State::Initial, v[0]) == Some(State::Variable));
            assert forall|k: int| 1 <= k < n implies spec_transition(
                State::Variable,
                ext_char(s, k),
            ) == Some(State::Variable) by {
                assert(ext_char(s, k) == v[k]);
                assert(is_var_char(v[k]));
            }
            lemma_munch_run(s, 1, n, State::Variable);
            assert(spec_munch(s, n, State::Variable) == (n, State::Variable));
            assert(s.subrange(0, n) =~= v);
            assert(spec_munch(s, 0, State::Initial) == (n, State::Variable));
            assert(spec_token_from_state(State::Variable, s.subrange(0, n)) == t);
        },
        TokenView::Number(NumView::Integer(i)) => {
            lemma_nat_digits_are_digits(i);
            if i == 0 {
                assert(rt =~= seq!['0']);
                assert(is_digit('0'));
                assert forall|k: int| 0 <= k < rt.len() implies is_digit(#[trigger] rt[k]) by {
                    assert(rt[k] == '0');
                }
            }
            assert(all_digits(rt) && rt.len() >= 1);
            assert(ext_char(s, 0) == rt[0]);
            assert(spec_transition(State::Initial, rt[0]) == Some(State::Integer));
            assert forall|k: int| 1 <= k < n implies spec_transition(
                State::Integer,
                ext_char(s, k),
            ) == Some(State::Integer) by {
                assert(ext_char(s, k) == rt[k]);
                assert(is_digit(rt[k]));
            }
            lemma_munch_run(s, 1, n, State::Integer);
            assert(spec_munch(s, n, State::Integer) == (n, State::Integer));
            let text = s.subrange(0, n);
            assert(text =~= rt);
            assert(!crate::tokens::has_sign(text));
            assert(crate::tokens::unsigned_part(text) == text);
            if i == 0 {
                assert(text.drop_last() =~= Seq::<char>::empty());
                assert(digits_val(text) == 10 * digits_val(text.drop_last()) + digit_val(
                    text.last(),
                ));
                assert(digits_val(text) == 0);
            } else {
                lemma_digits_val_nat_digits(i);
            }
            assert(crate::tokens::is_integer_literal(text));
            assert(crate::tokens::integer_literal_val(text) == i);
            assert(spec_munch(s, 0, State::Initial) == (n, State::Integer));
            assert(spec_token_from_state(State::Integer, s.subrange(0, n)) == t);
        },
        TokenView::Number(NumView::Decimal(d)) => {
            let ni = d.int_part.len() as int;
            let nf = d.frac_part.len() as int;
            assert(rt =~= d.int_part + seq!['.'] + d.frac_part);
            assert(n == ni + 1 + nf);
            assert forall|k: int| 0 <= k < ni implies ext_char(s, k) == d.int_part[k] && is_digit(
                d.int_part[k],
            ) by {
                assert(s[k] == rt[k]);
                assert(rt[k] == d.int_part[k]);
            }
            assert(ext_char(s, ni) == '.') by {
                assert(s[ni] == rt[ni]);
            }
            assert forall|k: int| ni + 1 <= k < n implies ext_char(s, k) == d.frac_part[k - ni
                - 1] && is_digit(d.frac_part[k - ni - 1]) by {
                assert(s[k] == rt[k]);
                assert(rt[k] == d.frac_part[k - ni - 1]);
            }
            if ni == 0 {
                assert(spec_transition(State::Initial, ext_char(s, 0)) == Some(State::FloatStart));
                assert(spec_munch(s, 0, State::Initial) == spec_munch(s, 1, State::FloatStart));
            } else {
                assert(spec_transition(State::Initial, ext_char(s, 0)) == Some(State::Integer));
                assert forall|k: int| 1 <= k < ni implies spec_transition(
                    State::Integer,
                    ext_char(s, k),
                ) == Some(State::Integer) by {}
                lemma_munch_run(s, 1, ni, State::Integer);
                assert(spec_munch(s, 0, State::Initial) == spec_munch(s, 1, State::Integer));
                assert(spec_munch(s, 1, State::Integer) == spec_munch(s, ni, State::Integer));
                assert(spec_transition(State::Integer, ext_char(s, ni)) == Some(
                    State::FloatStart,
                ));
                assert(spec_munch(s, ni, State::Integer) == spec_munch(
                    s,
                    ni + 1,
                    State::FloatStart,
                ));
            }
            assert(spec_munch(s, 0, State::Initial) == spec_munch(s, ni + 1, State::FloatStart));
            assert(spec_transition(State::FloatStart, ext_char(s, ni + 1)) == Some(State::Float));
            assert(spec_munch(s, ni + 1, State::FloatStart) == spec_munch(
                s,
                ni + 2,
                State::Float,
            ));
            assert forall|k: int| ni + 2 <= k < n implies spec_transition(
                State::Float,
                ext_char(s, k),
            ) == Some(State::Float) by {}
            lemma_munch_run(s, ni + 2, n, State::Float);
            assert(spec_munch(s, ni + 2, State::Float) == spec_munch(s, n, State::Float));
            assert(spec_munch(s, n, State::Float) == (n, State::Float));
            let text = s.subrange(0, n);
            assert(text =~= rt);
            assert(!crate::tokens::has_sign(text)) by {
                if ni > 0 {
                    assert(is_digit(text[0]));
                } else {
                    assert(text[0] == '.');
                }
            }
            assert(crate::tokens::unsigned_part(text) == text);
            assert(text.subrange(0, ni) =~= d.int_part);
            assert(text.subrange(ni + 1, n) =~= d.frac_part);
            assert(is_decimal_split(text, ni));
            assert(!crate::tokens::is_integer_literal(text)) by {
                assert(!is_digit(text[ni]));
            }
            lemma_decimal_split_unique(text, crate::tokens::decimal_dot(text), ni);
            assert(crate::tokens::decimal_literal_parts(text) == d);
            assert(spec_munch(s, 0, State::Initial) == (n, State::Float));
            assert(spec_token_from_state(State::Float, s.subrange(0, n)) == t);
        },
        _ => {
            assert(false);
        },
    }
}

/// Munching past a prefix behaves as munching the suffix alone.
proof fn lemma_munch_shift(s1: Seq<char>, s2: Seq<char>, k: int, st: State)
    requires
        0 <= k,
    ensures
        ({
            let (e1, st1) = spec_munch(s1 + s2, s1.len() + k, st);
            let (e2, st2) = spec_munch(s2, k, st);
            e1 == s1.len() + e2 && st1 == st2
        }),
    decreases s2.len() + 1 - k,
{
    let s = s1 + s2;
    if k <= s2.len() {
        assert(ext_char(s, s1.len() + k) == ext_char(s2, k)) by {
            if k < s2.len() {
                assert(s[s1.len() + k] == s2[k]);
            }
        }
        match spec_transition(st, ext_char(s2, k)) {
            None => {},
            Some(next) => {
                lemma_munch_shift(s1, s2, k + 1, next);
            },
        }
    } else {
        assert(spec_munch(s2, k, st) == (k, st));
        assert(spec_munch(s, s1.len() + k, st) == (s1.len() + k, st));
    }
}

/// Scanning past a prefix behaves as scanning the suffix alone, with
/// error positions shifted.
proof fn lemma_scan_shift(s1: Seq<char>, s2: Seq<char>, k: int)
    requires
        0 <= k,
    ensures
        spec_scan(s1 + s2, s1.len() + k) == match spec_scan(s2, k) {
            Ok(ts) => Ok::<Seq<TokenView>, (int, Seq<char>)>(ts),
            Err((p, v)) => Err::<Seq<TokenView>, (int, Seq<char>)>((p + s1.len(), v)),
        },
    decreases s2.len() + 1 - k,
{
    let s = s1 + s2;
    lemma_munch_shift(s1, s2, k, State::Initial);
    let (e2, st2) = spec_munch(s2, k, State::Initial);
    crate::lexical_analyzer::lemma_munch_bounds(s2, k, State::Initial);
    if e2 <= s2.len() {
        assert(s.subrange(s1.len() + k, s1.len() + e2) =~= s2.subrange(k, e2));
        assert(ext_char(s, s1.len() + e2) == ext_char(s2, e2)) by {
            if e2 < s2.len() {
                assert(s[s1.len() + e2] == s2[e2]);
            }
        }
        let potential = spec_token_from_state(st2, s2.subrange(k, e2));
        if !(potential is InvalidToken) {
            lemma_scan_shift(s1, s2, e2);
        }
    }
}

/// Scanning the rendered text of well-formed tokens yields them again.
proof fn lemma_render_rescan(toks: Seq<TokenView>)
    requires
        forall|i: int| 0 <= i < toks.len() ==> spec_scan_token_wf(#[trigger] toks[i]),
    ensures
        spec_scan(spec_render_all(toks), 0) == Ok::<Seq<TokenView>, (int, Seq<char>)>(toks),
    decreases toks.len(),
{
    let s = spec_render_all(toks);
    if toks.len() == 0 {
        assert(spec_munch(s, 0, State::Initial) == spec_munch(s, 1, State::EOL));
        assert(spec_munch(s, 1, State::EOL) == (1int, State::EOL));
        assert(spec_scan(s, 0) == Ok::<Seq<TokenView>, (int, Seq<char>)>(Seq::empty()));
        assert(toks =~= Seq::<TokenView>::empty());
    } else {
        let t = toks.first();
        let rest = toks.drop_first();
        let rt = spec_render_token(t);
        let n = rt.len() as int;
        let tail = seq![' '] + spec_render_all(rest);
        assert(s =~= rt + tail);
        assert(tail[0] == ' ');
        lemma_munch_token(t, tail);
        let (end, st) = spec_munch(rt + tail, 0, State::Initial);
        assert(spec_munch(s, 0, State::Initial) == (end, st));
        assert(end == n);
        let potential = spec_token_from_state(st, s.subrange(0, n));
        assert(potential == t);
        assert(!(potential is InvalidToken));
        assert(!(potential is Whitespace));
        // The separating space scans to one whitespace token: the next
        // rendered token never starts with whitespace.
        assert(ext_char(s, n) == ' ') by {
            assert(s[n] == tail[0]);
        }
        assert(spec_transition(State::Initial, ' ') == Some(State::Whitespace));
        assert(spec_munch(s, n, State::Initial) == spec_munch(s, n + 1, State::Whitespace));
        assert(spec_transition(State::Whitespace, ext_char(s, n + 1)) is None) by {
            if rest.len() == 0 {
                assert(s.len() == n + 1);
                assert(ext_char(s, n + 1) == '\n');
            } else {
                lemma_render_head(rest.first());
                assert(spec_render_all(rest)[0] == spec_render_token(rest.first())[0]);
                assert(s[n + 1] == tail[1]);
                assert(tail[1] == spec_render_all(rest)[0]);
                assert(!spec_is_whitespace(ext_char(s, n + 1)));
            }
        }
        assert(spec_munch(s, n + 1, State::Whitespace) == (n + 1, State::Whitespace));
        assert(spec_token_from_state(State::Whitespace, s.subrange(n, n + 1))
            is Whitespace);
        assert(spec_scan(s, n) == spec_scan(s, n + 1));
        // Past the space the remaining text is the rendering of the rest.
        let prefix = rt + seq![' '];
        assert(s =~= prefix + spec_render_all(rest));
        assert(prefix.len() == n + 1);
        assert forall|i: int| 0 <= i < rest.len() implies spec_scan_token_wf(
            #[trigger] rest[i],
        ) by {
            assert(rest[i] == toks[i + 1]);
        }
        lemma_render_rescan(rest);
        lemma_scan_shift(prefix, spec_render_all(rest), 0);
        assert(spec_scan(s, n + 1) == Ok::<Seq<TokenView>, (int, Seq<char>)>(rest));
        assert(spec_scan(s, 0) == Ok::<Seq<TokenView>, (int, Seq<char>)>(seq![t] + rest));
        assert(seq![t] + rest =~= toks);
    }
}

/// The round-trip law: the tokens of a successful scan, rendered back to
/// text with whitespace collapsed to single separators, scan to the same
/// token sequence — operator, number, parenthesis, variable and
/// end-of-line identity all survive re-rendering.
pub proof fn lemma_scan_round_trip(s: Seq<char>, toks: Seq<TokenView>)
    requires
        spec_scan(s, 0) == Ok::<Seq<TokenView>, (int, Seq<char>)>(toks),
    ensures
        spec_scan(spec_render_all(toks), 0) == Ok::<Seq<TokenView>, (int, Seq<char>)>(toks),
{
    lemma_scan_tokens_wf(s, 0);
    assert(spec_scan(s, 0) matches Ok(ts) ==> ts == toks);
    assert(forall|i: int| 0 <= i < toks.len() ==> spec_scan_token_wf(#[trigger] toks[i]));
    lemma_render_rescan(toks);
}

} // verus!
