//! Tokenizing: source text to primitive operations.
use vstd::prelude::*;

verus! {

/// A primitive operation, one per recognized symbol of the source text.
#[derive(Debug, Clone, Copy, PartialEq, Eq, Structural)]
pub enum OpCode {
    /// `>`
    Forward,
    /// `<`
    Backward,
    /// `+`
    Increase,
    /// `-`
    Decrease,
    /// `.`
    Write,
    /// `,`
    Read,
    /// `[`
    BeginLoop,
    /// `]`
    EndLoop,
}

/// The operation a character stands for, if it is one of the eight symbols.
pub open spec fn symbol_op(c: char) -> Option<OpCode> {
    match c {
        '>' => Some(OpCode::Forward),
        '<' => Some(OpCode::Backward),
        '+' => Some(OpCode::Increase),
        '-' => Some(OpCode::Decrease),
        '.' => Some(OpCode::Write),
        ',' => Some(OpCode::Read),
        '[' => Some(OpCode::BeginLoop),
        ']' => Some(OpCode::EndLoop),
        _ => None,
    }
}

pub open spec fn is_symbol(c: char) -> bool {
    symbol_op(c) is Some
}

/// The operations of a text: its recognized symbols, in order, each mapped
/// to its operation; every other character is dropped.
pub open spec fn tokens(s: Seq<char>) -> Seq<OpCode> {
    s.filter(|c: char| is_symbol(c)).map_values(|c: char| symbol_op(c)->0)
}

/// The symbol an operation is written with.
pub open spec fn symbol_char(o: OpCode) -> char {
    match o {
        OpCode::Forward => '>',
        OpCode::Backward => '<',
        OpCode::Increase => '+',
        OpCode::Decrease => '-',
        OpCode::Write => '.',
        OpCode::Read => ',',
        OpCode::BeginLoop => '[',
        OpCode::EndLoop => ']',
    }
}

/// The text of a sequence of operations, one symbol each.
pub open spec fn text(ops: Seq<OpCode>) -> Seq<char> {
    ops.map_values(|o: OpCode| symbol_char(o))
}

/// Tokenizing the text of operations gives those operations back.
pub proof fn lemma_tokens_of_text(ops: Seq<OpCode>)
    ensures
        tokens(text(ops)) == ops,
    decreases ops.len(),
{
    if ops.len() == 0 {
        assert(text(ops) =~= Seq::<char>::empty());
        reveal(Seq::filter);
        assert(tokens(text(ops)) =~= ops);
    } else {
        let o = ops.last();
        lemma_tokens_of_text(ops.drop_last());
        assert(text(ops) =~= text(ops.drop_last()).push(symbol_char(o)));
        lemma_tokens_push(text(ops.drop_last()), symbol_char(o));
        assert(ops.drop_last().push(o) =~= ops);
    }
}

proof fn lemma_tokens_push(s: Seq<char>, c: char)
    ensures
        tokens(s.push(c)) == if is_symbol(c) {
            tokens(s).push(symbol_op(c)->0)
        } else {
            tokens(s)
        },
{
    let p = |c: char| is_symbol(c);
    assert(s.push(c).drop_last() =~= s);
    reveal(Seq::filter);
    let f = s.filter(p);
    if is_symbol(c) {
        assert(s.push(c).filter(p) == f.push(c));
        assert(f.push(c).map_values(|c: char| symbol_op(c)->0) =~= f.map_values(
            |c: char| symbol_op(c)->0,
        ).push(symbol_op(c)->0));
    } else {
        assert(s.push(c).filter(p) == f);
    }
}

fn op_of(c: char) -> (r: Option<OpCode>)
    ensures
        r == symbol_op(c),
{
    match c {
        '>' => Some(OpCode::Forward),
        '<' => Some(OpCode::Backward),
        '+' => Some(OpCode::Increase),
        '-' => Some(OpCode::Decrease),
        '.' => Some(OpCode::Write),
        ',' => Some(OpCode::Read),
        '[' => Some(OpCode::BeginLoop),
        ']' => Some(OpCode::EndLoop),
        _ => None,
    }
}

/// Tokenizes source text: the recognized symbols, in order, as operations.
/// Never fails; text without symbols gives an empty sequence.
pub fn parse_1(code: String) -> (r: Vec<OpCode>)
    ensures
        r@ == tokens(code@),
{
    let mut out: Vec<OpCode> = Vec::new();
    let chars = code.as_str().chars();
    proof {
        broadcast use vstd::string::axiom_spec_iter;
    }
    for c in it: chars
        invariant
            it.seq() == code@,
            out@ == tokens(it.seq().take(it.index() as int)),
    {
        proof {
            assert(it.seq().take(it.index() + 1) =~= it.seq().take(it.index() as int).push(c));
            lemma_tokens_push(it.seq().take(it.index() as int), c);
        }
        match op_of(c) {
            Some(op) => out.push(op),
            None => {},
        }
    }
    proof {
        assert(code@.take(code@.len() as int) =~= code@);
    }
    out
}

} // verus!
