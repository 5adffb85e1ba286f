//! From source text to instructions: the filter that keeps the eight
//! symbols, and the tokenizer that maps each symbol to its instruction.

use vstd::prelude::*;
use crate::command::Command;

verus! {

/// The eight characters that are instructions; every other character is a
/// comment.
pub open spec fn is_symbol(c: char) -> bool {
    c == '>' || c == '<' || c == '+' || c == '-' || c == '.' || c == ',' || c == '[' || c == ']'
}

/// Whether a text holds symbols only.
pub open spec fn all_symbols(s: Seq<char>) -> bool {
    forall|i: int| 0 <= i < s.len() ==> is_symbol(#[trigger] s[i])
}

/// The symbols of a text, in their order.
pub open spec fn symbols_of(s: Seq<char>) -> Seq<char> {
    s.filter(|c: char| is_symbol(c))
}

/// The instruction that a symbol stands for. Brackets come with the
/// placeholder target 0.
pub open spec fn token_of(c: char) -> Command {
    if c == '>' {
        Command::INCPTR { amount: 1 }
    } else if c == '<' {
        Command::DECPTR { amount: 1 }
    } else if c == '+' {
        Command::INCVAL { amount: 1 }
    } else if c == '-' {
        Command::DECVAL { amount: 1 }
    } else if c == '.' {
        Command::PUTC
    } else if c == ',' {
        Command::GETC
    } else if c == '[' {
        Command::LOOPSTART { end: 0 }
    } else {
        Command::LOOPEND { start: 0 }
    }
}

/// The instructions that a text of symbols stands for.
pub open spec fn tokens_of(s: Seq<char>) -> Seq<Command> {
    s.map_values(|c: char| token_of(c))
}

/// What is kept of a text holds nothing but symbols, so it can always be
/// tokenized, and is never longer than the text.
pub proof fn lemma_symbols_of_all_symbols(s: Seq<char>)
    ensures
        all_symbols(symbols_of(s)),
        symbols_of(s).len() <= s.len(),
        tokens_of(symbols_of(s)).len() == symbols_of(s).len(),
{
    broadcast use vstd::seq_lib::group_filter_ensures;

    let pred = |c: char| is_symbol(c);
    assert forall|i: int| 0 <= i < symbols_of(s).len() implies is_symbol(
        #[trigger] symbols_of(s)[i],
    ) by {
        assert(pred(s.filter(pred)[i]));
    }
}

/// Filtering one more character of a text.
proof fn lemma_symbols_of_push(s: Seq<char>, c: char)
    ensures
        symbols_of(s.push(c)) == if is_symbol(c) {
            symbols_of(s).push(c)
        } else {
            symbols_of(s)
        },
{
    let pred = |c: char| is_symbol(c);
    reveal(Seq::filter);
    assert(s.push(c).drop_last() =~= s);
    assert(s.push(c).last() == c);
}

/// `String::push`: the string afterwards is the string before with the
/// character appended.
#[verifier::external_body]
fn push_char(s: &mut String, c: char)
    ensures
        final(s)@ == old(s)@.push(c),
{
    s.push(c)
}

/// Whether a character is one of the eight symbols.
pub fn is_symbol_char(c: char) -> (r: bool)
    ensures
        r == is_symbol(c),
{
    c == '>' || c == '<' || c == '+' || c == '-' || c == '.' || c == ',' || c == '[' || c == ']'
}

/// Drops every character that is not one of the eight symbols and keeps the
/// rest in order.
pub fn preprocess(program: &str) -> (result: String)
    ensures
        result@ == symbols_of(program@),
        all_symbols(result@),
        result@.len() <= program@.len(),
{
    let mut out = String::new();
    proof {
        reveal(Seq::filter);
        assert(program@.take(0) =~= Seq::<char>::empty());
    }
    for c in it: program.chars()
        invariant
            it.seq() == program@,
            out@ == symbols_of(program@.take(it.index() as int)),
    {
        proof {
            lemma_symbols_of_push(program@.take(it.index() as int), c);
            assert(program@.take(it.index() + 1) =~= program@.take(it.index() as int).push(c));
        }
        if is_symbol_char(c) {
            push_char(&mut out, c);
        }
    }
    proof {
        assert(program@.take(program@.len() as int) =~= program@);
        lemma_symbols_of_all_symbols(program@);
    }
    out
}

/// The instruction for one symbol.
fn token(c: char) -> (r: Command)
    ensures
        r == token_of(c),
{
    if c == '>' {
        Command::INCPTR { amount: 1 }
    } else if c == '<' {
        Command::DECPTR { amount: 1 }
    } else if c == '+' {
        Command::INCVAL { amount: 1 }
    } else if c == '-' {
        Command::DECVAL { amount: 1 }
    } else if c == '.' {
        Command::PUTC
    } else if c == ',' {
        Command::GETC
    } else if c == '[' {
        Command::LOOPSTART { end: 0 }
    } else {
        Command::LOOPEND { start: 0 }
    }
}

/// Turns a text of symbols into instructions, one for each symbol, in
/// order. Brackets get the placeholder target 0.
pub fn tokenize(input: &str) -> (result: Vec<Command>)
    requires
        all_symbols(input@),
    ensures
        result@ == tokens_of(input@),
        result@.len() == input@.len(),
{
    let mut out: Vec<Command> = Vec::new();
    for c in it: input.chars()
        invariant
            it.seq() == input@,
            out@ == tokens_of(input@.take(it.index() as int)),
    {
        out.push(token(c));
        assert(out@ =~= tokens_of(input@.take(it.index() + 1)));
    }
    assert(input@.take(input@.len() as int) =~= input@);
    out
}

} // verus!
