//! Evaluating one line of the form `operand operator operand`.
use crate::fraction::{
    difference, parsed, product, quotient, reduced, sum, text_of, Fraction, FractionError,
};
use vstd::prelude::*;

verus! {

/// The separators between tokens: the ASCII white-space characters (space, tab, line feed,
/// vertical tab, form feed, carriage return). White space outside ASCII does not separate.
pub open spec fn is_blank(c: char) -> bool {
    c == ' ' || c == '\t' || c == '\n' || c == '\x0B' || c == '\x0C' || c == '\r'
}

fn blank(c: char) -> (r: bool)
    ensures
        r == is_blank(c),
{
    c == ' ' || c == '\t' || c == '\n' || c == '\x0B' || c == '\x0C' || c == '\r'
}

/// The maximal runs of non-blank characters, in order.
pub open spec fn words(s: Seq<char>) -> Seq<Seq<char>>
    decreases s.len(),
{
    if s.len() == 0 {
        Seq::empty()
    } else {
        let w = words(s.drop_last());
        let c = s.last();
        if is_blank(c) {
            w
        } else if s.len() >= 2 && !is_blank(s[s.len() - 2]) {
            w.update(w.len() - 1, w.last().push(c))
        } else {
            w.push(seq![c])
        }
    }
}

/// The four operations, by their symbols `+`, `-`, `*` and `/`.
#[derive(Debug, Clone, Copy, PartialEq, Eq, Structural)]
pub enum Operator {
    Add,
    Subtract,
    Multiply,
    Divide,
}

pub open spec fn operator_of(t: Seq<char>) -> Option<Operator> {
    if t == seq!['+'] {
        Some(Operator::Add)
    } else if t == seq!['-'] {
        Some(Operator::Subtract)
    } else if t == seq!['*'] {
        Some(Operator::Multiply)
    } else if t == seq!['/'] {
        Some(Operator::Divide)
    } else {
        None
    }
}

/// The unreduced result of an operation.
pub open spec fn outcome(op: Operator, a: Fraction, b: Fraction) -> Result<Fraction, FractionError> {
    match op {
        Operator::Add => sum(a, b),
        Operator::Subtract => difference(a, b),
        Operator::Multiply => product(a, b),
        Operator::Divide => quotient(a, b),
    }
}

/// The message for an operand that could not be read.
pub open spec fn operand_message(e: FractionError, token: Seq<char>) -> Seq<char> {
    match e {
        FractionError::InvalidNumber => "invalid number: "@ + token,
        FractionError::DivideByZero => "divide by zero"@,
        FractionError::Overflow => "number out of range: "@ + token,
    }
}

/// The message for an operation that could not be carried out.
pub open spec fn result_message(e: FractionError) -> Seq<char> {
    match e {
        FractionError::DivideByZero => "divide by zero"@,
        _ => "result out of range"@,
    }
}

/// What a line evaluates to: the canonical text of the reduced result, or a message.
pub open spec fn evaluation(line: Seq<char>) -> Result<Seq<char>, Seq<char>> {
    let w = words(line);
    if w.len() != 3 {
        Err("expected: operand operator operand"@)
    } else {
        match parsed(w[0]) {
            Err(e) => Err(operand_message(e, w[0])),
            Ok(a) => match parsed(w[2]) {
                Err(e) => Err(operand_message(e, w[2])),
                Ok(b) => match operator_of(w[1]) {
                    None => Err("unknown operator: "@ + w[1]),
                    Some(op) => match outcome(op, a, b) {
                        Err(e) => Err(result_message(e)),
                        Ok(r) => match reduced(r) {
                            None => Err(result_message(FractionError::Overflow)),
                            Some(y) => Ok(text_of(y)),
                        },
                    },
                },
            },
        }
    }
}

/// The start and end of each word of `s`.
pub fn word_spans(s: &str) -> (r: Vec<(usize, usize)>)
    ensures
        r@.len() == words(s@).len(),
        forall|k: int|
            0 <= k < r@.len() ==> r@[k].0 <= r@[k].1 <= s@.len() && s@.subrange(
                r@[k].0 as int,
                r@[k].1 as int,
            ) == #[trigger] words(s@)[k],
        forall|k: int, j: int| 0 <= k < j < r@.len() ==> r@[k].1 < r@[j].0,
{
    let n = s.unicode_len();
    let mut spans: Vec<(usize, usize)> = Vec::new();
    let mut i: usize = 0;
    while i < n
        invariant
            n == s@.len(),
            i <= n,
            spans@.len() == words(s@.take(i as int)).len(),
            forall|k: int|
                #![trigger spans@[k]]
                0 <= k < spans@.len() ==> spans@[k].0 < spans@[k].1 <= i && s@.subrange(
                    spans@[k].0 as int,
                    spans@[k].1 as int,
                ) == words(s@.take(i as int))[k],
            i > 0 && !is_blank(s@[i - 1]) ==> spans@.len() > 0 && spans@.last().1 == i,
            forall|k: int| #![trigger spans@[k]] 0 <= k < spans@.len() ==> !is_blank(s@[spans@[k].1 - 1]),
            forall|k: int, j: int| 0 <= k < j < spans@.len() ==> spans@[k].1 < spans@[j].0,
        decreases n - i,
    {
        let c = s.get_char(i);
        let ghost t = s@.take(i as int + 1);
        assert(t.drop_last() =~= s@.take(i as int));
        assert(t.last() == c);
        let ghost old_words = words(s@.take(i as int));
        let ghost old_spans = spans@;
        if blank(c) {
            assert(words(t) == old_words);
            assert forall|k: int| 0 <= k < spans@.len() implies {
                &&& spans@[k].0 < spans@[k].1 <= i + 1
                &&& s@.subrange(spans@[k].0 as int, spans@[k].1 as int)
                    == words(t)[k]
            } by {
                assert(words(t)[k] == old_words[k]);
            }
        } else if i > 0 && !blank(s.get_char(i - 1)) {
            assert(t[t.len() - 2] == s@[i - 1]);
            assert(words(t) == old_words.update(old_words.len() - 1, old_words.last().push(c)));
            let last = spans.len() - 1;
            let start = spans[last].0;
            assert(s@.subrange(start as int, spans@[last as int].1 as int)
                == old_words[last as int]);
            spans.set(last, (start, i + 1));
            assert(s@.subrange(start as int, i + 1) =~= s@.subrange(start as int, i as int).push(
                c,
            ));
            assert forall|k: int| 0 <= k < spans@.len() implies {
                &&& spans@[k].0 < spans@[k].1 <= i + 1
                &&& s@.subrange(spans@[k].0 as int, spans@[k].1 as int)
                    == words(t)[k]
            } by {
                if k < last {
                    assert(spans@[k] == old_spans[k]);
                    assert(words(t)[k] == old_words[k]);
                }
            }
        } else {
            assert(i > 0 ==> t[t.len() - 2] == s@[i - 1]);
            assert(words(t) == old_words.push(seq![c]));
            spans.push((i, i + 1));
            assert(s@.subrange(i as int, i + 1) =~= seq![c]);
            assert forall|k: int| 0 <= k < spans@.len() implies {
                &&& spans@[k].0 < spans@[k].1 <= i + 1
                &&& s@.subrange(spans@[k].0 as int, spans@[k].1 as int)
                    == words(t)[k]
            } by {
                if k < old_spans.len() {
                    assert(spans@[k] == old_spans[k]);
                    assert(words(t)[k] == old_words[k]);
                }
            }
        }
        i = i + 1;
    }
    assert(s@.take(n as int) =~= s@);
    spans
}

impl Operator {
    /// The operator a token names, if it names one.
    pub fn from_symbol(t: &str) -> (r: Option<Operator>)
        ensures
            r == operator_of(t@),
    {
        if t.unicode_len() != 1 {
            assert(t@ != seq!['+'] && t@ != seq!['-'] && t@ != seq!['*'] && t@ != seq!['/']);
            return None;
        }
        let c = t.get_char(0);
        assert(t@ =~= seq![c]);
        if c == '+' {
            Some(Operator::Add)
        } else if c == '-' {
            Some(Operator::Subtract)
        } else if c == '*' {
            Some(Operator::Multiply)
        } else if c == '/' {
            Some(Operator::Divide)
        } else {
            None
        }
    }
}

impl Operator {
    /// The unreduced result of `a op b`.
    pub fn apply(self, a: Fraction, b: Fraction) -> (r: Result<Fraction, FractionError>)
        ensures
            r == outcome(self, a, b),
    {
        match self {
            Operator::Add => a.add(b),
            Operator::Subtract => a.sub(b),
            Operator::Multiply => a.mul(b),
            Operator::Divide => a.div(b),
        }
    }
}

/// What reading yields has a non-zero denominator.
pub proof fn lemma_parsed_nonzero(s: Seq<char>)
    ensures
        parsed(s) matches Ok(x) ==> x.denominator != 0,
{
}

/// An operation on fractions with non-zero denominators yields a non-zero denominator.
pub proof fn lemma_outcome_nonzero(op: Operator, a: Fraction, b: Fraction)
    requires
        a.denominator != 0,
        b.denominator != 0,
    ensures
        outcome(op, a, b) matches Ok(r) ==> r.denominator != 0,
{
    let x = a.denominator as int;
    let y = b.denominator as int;
    let z = b.numerator as int;
    assert(x * y != 0) by (nonlinear_arith)
        requires
            x != 0,
            y != 0,
    ;
    if z != 0 {
        assert(x * z != 0) by (nonlinear_arith)
            requires
                x != 0,
                z != 0,
        ;
    }
}

fn operand_error(e: FractionError, token: &str) -> (r: String)
    ensures
        r@ == operand_message(e, token@),
{
    match e {
        FractionError::InvalidNumber => {
            let mut m = String::from_str("invalid number: ");
            m.append(token);
            m
        },
        FractionError::DivideByZero => String::from_str("divide by zero"),
        FractionError::Overflow => {
            let mut m = String::from_str("number out of range: ");
            m.append(token);
            m
        },
    }
}

fn result_error(e: FractionError) -> (r: String)
    ensures
        r@ == result_message(e),
{
    match e {
        FractionError::DivideByZero => String::from_str("divide by zero"),
        _ => String::from_str("result out of range"),
    }
}

/// Evaluates `operand operator operand`: reads both operands, applies the operator, and
/// gives the reduced result as text, or a message that says what went wrong.
pub fn process_input(line: &str) -> (r: Result<String, String>)
    ensures
        match r {
            Ok(t) => evaluation(line@) == Ok::<Seq<char>, Seq<char>>(t@),
            Err(m) => evaluation(line@) == Err::<Seq<char>, Seq<char>>(m@),
        },
{
    let spans = word_spans(line);
    if spans.len() != 3 {
        return Err(String::from_str("expected: operand operator operand"));
    }
    let ghost w = words(line@);
    assert(line@.subrange(spans@[0].0 as int, spans@[0].1 as int) == w[0]);
    assert(line@.subrange(spans@[1].0 as int, spans@[1].1 as int) == w[1]);
    assert(line@.subrange(spans@[2].0 as int, spans@[2].1 as int) == w[2]);
    let left = line.substring_char(spans[0].0, spans[0].1);
    let symbol = line.substring_char(spans[1].0, spans[1].1);
    let right = line.substring_char(spans[2].0, spans[2].1);
    let a = match Fraction::parse(left) {
        Ok(a) => a,
        Err(e) => return Err(operand_error(e, left)),
    };
    let b = match Fraction::parse(right) {
        Ok(b) => b,
        Err(e) => return Err(operand_error(e, right)),
    };
    let op = match Operator::from_symbol(symbol) {
        Some(op) => op,
        None => {
            let mut m = String::from_str("unknown operator: ");
            m.append(symbol);
            return Err(m);
        },
    };
    proof {
        lemma_parsed_nonzero(left@);
        lemma_parsed_nonzero(right@);
        lemma_outcome_nonzero(op, a, b);
    }
    let r = match op.apply(a, b) {
        Ok(r) => r,
        Err(e) => return Err(result_error(e)),
    };
    match Fraction::reduce(r) {
        Ok(y) => Ok(y.to_string()),
        Err(_) => Err(result_error(FractionError::Overflow)),
    }
}

} // verus!
