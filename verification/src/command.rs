use vstd::prelude::*;
use vstd::string::*;
use crate::chunks::{after_first, first_of, Chunks};
use crate::error::{Failure, Instruction, NumberKind, ParseError};
use crate::text::{
    chars_of, digits_of, hex_digit, hex_value, is_decimal, is_decimal_text, is_hex_digit,
    lemma_digits_of, parse_unsigned, same_text, split_words, unsigned_of,
};

verus! {

/// One instruction of a drawing program.
#[derive(Debug, PartialEq, Eq)]
pub enum Command {
    /// Move by this many steps along the heading.
    Forward(u32),
    Left,
    Right,
    /// Lift the pen.
    Up,
    /// Lower the pen.
    Down,
    /// Set the stroke width to the decimal number that this text writes.
    SetSize(String),
    /// Set the stroke colour: red, green, blue.
    SetColor(u8, u8, u8),
    /// Run the commands of the block this many times.
    Repeat(u32, Vec<Command>),
    /// The `]` that closes a block. The parser uses it to find the end of
    /// a block; no block holds it.
    EndRepeat,
}

/// What a `Command` says, as a mathematical value.
pub enum Op {
    Forward(nat),
    Left,
    Right,
    Up,
    Down,
    SetSize(Seq<char>),
    SetColor(u8, u8, u8),
    Repeat(nat, Seq<Op>),
    EndRepeat,
}

impl Op {
    /// Whether neither the operation nor any block inside it is the closing
    /// marker: such an operation can be executed.
    pub open spec fn finished(self) -> bool
        decreases self, 0nat,
    {
        match self {
            Op::EndRepeat => false,
            Op::Repeat(_, body) => Op::first_finished(body, body.len()),
            _ => true,
        }
    }

    /// Whether the first `k` operations of a block can be executed.
    pub open spec fn first_finished(body: Seq<Op>, k: nat) -> bool
        decreases body, k,
    {
        if k == 0 || k > body.len() {
            true
        } else {
            Op::first_finished(body, (k - 1) as nat) && body[k - 1].finished()
        }
    }
}

/// Whether every operation of a block can be executed.
pub open spec fn all_finished(body: Seq<Op>) -> bool {
    forall|i: int| 0 <= i < body.len() ==> (#[trigger] body[i]).finished()
}

/// The first `k` operations of a block can be executed where each of them
/// can.
pub proof fn lemma_first_finished(body: Seq<Op>, k: nat)
    requires
        k <= body.len(),
    ensures
        Op::first_finished(body, k) == (forall|i: int|
            0 <= i < k ==> (#[trigger] body[i]).finished()),
    decreases k,
{
    if k > 0 {
        lemma_first_finished(body, (k - 1) as nat);
    }
}

/// A block can be executed where each of its operations can.
pub proof fn lemma_repeat_finished(n: nat, body: Seq<Op>)
    ensures
        Op::Repeat(n, body).finished() == all_finished(body),
{
    lemma_first_finished(body, body.len());
}

/// The operations of a sequence of commands.
pub open spec fn ops_of(cs: Seq<Command>) -> Seq<Op> {
    Seq::new(cs.len(), |i: int| cs[i]@)
}

impl Command {
    /// What the command says.
    pub open spec fn model(self) -> Op
        decreases self,
    {
        match self {
            Command::Forward(d) => Op::Forward(d as nat),
            Command::Left => Op::Left,
            Command::Right => Op::Right,
            Command::Up => Op::Up,
            Command::Down => Op::Down,
            Command::SetSize(w) => Op::SetSize(w@),
            Command::SetColor(r, g, b) => Op::SetColor(r, g, b),
            Command::Repeat(n, body) => Op::Repeat(
                n as nat,
                Seq::new(
                    body@.len(),
                    |i: int|
                        if 0 <= i < body@.len() {
                            body@[i].model()
                        } else {
                            Op::EndRepeat
                        },
                ),
            ),
            Command::EndRepeat => Op::EndRepeat,
        }
    }
}

impl View for Command {
    type V = Op;

    open spec fn view(&self) -> Op {
        self.model()
    }
}

/// The result of reading one command, and the words that are left.
pub struct Parsed {
    pub result: Result<Op, Failure>,
    pub rest: Seq<Seq<char>>,
}

/// The result of reading the commands of a block up to its `]`, and the
/// words that are left.
pub struct ParsedBody {
    pub result: Result<Seq<Op>, Failure>,
    pub rest: Seq<Seq<char>>,
}

/// What a result of the parser says.
pub open spec fn outcome(r: Result<Command, ParseError>) -> Result<Op, Failure> {
    match r {
        Ok(c) => Ok(c@),
        Err(e) => Err(e@),
    }
}

/// The characters of a text that may be absent.
pub open spec fn text_of(t: Option<&str>) -> Option<Seq<char>> {
    match t {
        Some(s) => Some(s@),
        None => None,
    }
}

/// FORWARD with its argument: an unsigned distance.
pub open spec fn forward_of(arg: Option<Seq<char>>) -> Result<Op, Failure> {
    match arg {
        None => Err(Failure::MissingParameter(Instruction::Forward, NumberKind::Unsigned)),
        Some(t) => match unsigned_of(t, u32::MAX as nat) {
            Some(n) => Ok(Op::Forward(n)),
            None => Err(Failure::NumericParseError(t, NumberKind::Unsigned)),
        },
    }
}

/// SETSIZE with its argument: a decimal number, kept as it is written.
pub open spec fn setsize_of(arg: Option<Seq<char>>) -> Result<Op, Failure> {
    match arg {
        None => Err(Failure::MissingParameter(Instruction::SetSize, NumberKind::Decimal)),
        Some(t) => if is_decimal(t) {
            Ok(Op::SetSize(t))
        } else {
            Err(Failure::NumericParseError(t, NumberKind::Decimal))
        },
    }
}

/// The long form of a hexadecimal colour, `0x` and six digits: one digit
/// is written six times, each of three digits twice, six are kept. The
/// digits themselves are not looked at.
pub open spec fn normal_hex(s: Seq<char>) -> Option<Seq<char>> {
    if s.len() >= 2 && s[0] == '0' && s[1] == 'x' {
        if s.len() == 8 {
            Some(s)
        } else if s.len() == 3 {
            Some(seq!['0', 'x', s[2], s[2], s[2], s[2], s[2], s[2]])
        } else if s.len() == 5 {
            Some(seq!['0', 'x', s[2], s[2], s[3], s[3], s[4], s[4]])
        } else {
            None
        }
    } else {
        None
    }
}

/// The byte that two hexadecimal digits write.
pub open spec fn channel(high: char, low: char) -> u8 {
    (hex_value(high) * 16 + hex_value(low)) as u8
}

/// The colour that a hexadecimal literal writes: of the 24 bits of its
/// long form the first eight are red, the next eight green, the last blue.
pub open spec fn hex_color(s: Seq<char>) -> Option<(u8, u8, u8)> {
    match normal_hex(s) {
        Some(n) => if forall|i: int| 2 <= i < 8 ==> is_hex_digit(#[trigger] n[i]) {
            Some((channel(n[2], n[3]), channel(n[4], n[5]), channel(n[6], n[7])))
        } else {
            None
        },
        None => None,
    }
}

/// A hexadecimal colour of one digit or of three writes the colour that its
/// long form writes: the one digit six times over, or each of the three
/// twice.
pub proof fn lemma_short_hex_is_long_hex(a: char, b: char, c: char)
    ensures
        hex_color(seq!['0', 'x', a]) == hex_color(seq!['0', 'x', a, a, a, a, a, a]),
        hex_color(seq!['0', 'x', a, b, c]) == hex_color(seq!['0', 'x', a, a, b, b, c, c]),
        is_hex_digit(a) ==> hex_color(seq!['0', 'x', a]) == Some(
            (channel(a, a), channel(a, a), channel(a, a)),
        ),
{
    let one = seq!['0', 'x', a, a, a, a, a, a];
    let three = seq!['0', 'x', a, a, b, b, c, c];
    assert(normal_hex(seq!['0', 'x', a]) == Some(one));
    assert(normal_hex(one) == Some(one));
    assert(normal_hex(seq!['0', 'x', a, b, c]) == Some(three));
    assert(normal_hex(three) == Some(three));
}

/// One colour component written as a number.
pub open spec fn byte_of(arg: Option<Seq<char>>) -> Result<u8, Failure> {
    match arg {
        None => Err(Failure::MissingParameter(Instruction::SetColor, NumberKind::Byte)),
        Some(t) => match unsigned_of(t, 255) {
            Some(v) => Ok(v as u8),
            None => Err(Failure::ColorParseError(t)),
        },
    }
}

/// SETCOLOR with the words after it. Where the first word is a number
/// from 0 to 255, three such numbers are read; any other first word is
/// read as a hexadecimal literal.
pub open spec fn parse_color(t: Seq<Seq<char>>) -> Parsed {
    if t.len() == 0 {
        Parsed {
            result: Err(Failure::MissingParameter(Instruction::SetColor, NumberKind::Byte)),
            rest: t,
        }
    } else if unsigned_of(t[0], 255) is Some {
        let red = unsigned_of(t[0], 255)->0 as u8;
        let t1 = t.skip(1);
        let t2 = after_first(t1);
        match byte_of(first_of(t1)) {
            Err(e) => Parsed { result: Err(e), rest: t2 },
            Ok(green) => match byte_of(first_of(t2)) {
                Err(e) => Parsed { result: Err(e), rest: after_first(t2) },
                Ok(blue) => Parsed {
                    result: Ok(Op::SetColor(red, green, blue)),
                    rest: after_first(t2),
                },
            },
        }
    } else {
        Parsed {
            result: match hex_color(t[0]) {
                Some(c) => Ok(Op::SetColor(c.0, c.1, c.2)),
                None => Err(Failure::HexFormatError(t[0])),
            },
            rest: t.skip(1),
        }
    }
}

/// A block's result with some operations put in front of it.
pub open spec fn prepend(front: Seq<Op>, b: ParsedBody) -> ParsedBody {
    ParsedBody {
        result: match b.result {
            Ok(cs) => Ok(front + cs),
            Err(e) => Err(e),
        },
        rest: b.rest,
    }
}

/// How many blocks may stand inside one another, the outermost counted.
pub const MAX_NESTING: u32 = 128;

/// The command that the first words of `t` write, and the words after it.
pub open spec fn parse(t: Seq<Seq<char>>) -> Parsed {
    parse_within(t, MAX_NESTING as nat)
}

/// REPEAT with the words after it: a count, `[`, the commands of the
/// block, and `]`.
pub open spec fn parse_repeat(t: Seq<Seq<char>>) -> Parsed {
    parse_repeat_within(t, MAX_NESTING as nat)
}

/// The command that the first words of `t` write, and the words after it,
/// where blocks may stand at most `depth` deep inside one another.
pub open spec fn parse_within(t: Seq<Seq<char>>, depth: nat) -> Parsed
    decreases t.len(), 0nat,
{
    if t.len() == 0 {
        Parsed { result: Err(Failure::EmptyCommand), rest: t }
    } else {
        let w = t[0];
        let r = t.skip(1);
        if w == "PENUP"@ || w == "U"@ {
            Parsed { result: Ok(Op::Up), rest: r }
        } else if w == "PENDOWN"@ || w == "D"@ {
            Parsed { result: Ok(Op::Down), rest: r }
        } else if w == "LEFT"@ || w == "L"@ {
            Parsed { result: Ok(Op::Left), rest: r }
        } else if w == "RIGHT"@ || w == "R"@ {
            Parsed { result: Ok(Op::Right), rest: r }
        } else if w == "SETSIZE"@ || w == "S"@ {
            Parsed { result: setsize_of(first_of(r)), rest: after_first(r) }
        } else if w == "SETCOLOR"@ || w == "C"@ {
            parse_color(r)
        } else if w == "FORWARD"@ || w == "F"@ {
            Parsed { result: forward_of(first_of(r)), rest: after_first(r) }
        } else if w == "REPEAT"@ {
            parse_repeat_within(r, depth)
        } else if w == "]"@ {
            Parsed { result: Ok(Op::EndRepeat), rest: r }
        } else {
            Parsed { result: Err(Failure::InvalidCommand(w)), rest: r }
        }
    }
}

/// REPEAT with the words after it, where blocks may stand at most `depth`
/// deep inside one another, this one counted: with a depth of 0 it is an
/// error.
pub open spec fn parse_repeat_within(t: Seq<Seq<char>>, depth: nat) -> Parsed
    decreases t.len(), 2nat,
{
    if depth == 0 {
        Parsed { result: Err(Failure::NestingTooDeep), rest: t }
    } else if t.len() == 0 {
        Parsed { result: Err(Failure::RepeatCountError(None)), rest: t }
    } else {
        match unsigned_of(t[0], u32::MAX as nat) {
            None => Parsed { result: Err(Failure::RepeatCountError(Some(t[0]))), rest: t.skip(1) },
            Some(n) => if t.len() < 2 {
                Parsed { result: Err(Failure::RepeatOpenBracketError(None)), rest: t.skip(1) }
            } else if t[1] != "["@ {
                Parsed {
                    result: Err(Failure::RepeatOpenBracketError(Some(t[1]))),
                    rest: t.skip(2),
                }
            } else {
                let b = parse_body(t.skip(2), (depth - 1) as nat);
                Parsed {
                    result: match b.result {
                        Ok(cs) => Ok(Op::Repeat(n, cs)),
                        Err(e) => Err(e),
                    },
                    rest: b.rest,
                }
            },
        }
    }
}

/// The commands of a block, read up to the `]` that closes it. That the
/// words end before it is an error; so is any error in a command of the
/// block.
pub open spec fn parse_body(t: Seq<Seq<char>>, depth: nat) -> ParsedBody
    decreases t.len(), 1nat,
{
    if t.len() == 0 {
        ParsedBody { result: Err(Failure::UnterminatedRepeatError), rest: t }
    } else {
        let p = parse_within(t, depth);
        match p.result {
            Err(e) => ParsedBody { result: Err(e), rest: p.rest },
            Ok(Op::EndRepeat) => ParsedBody { result: Ok(Seq::empty()), rest: p.rest },
            Ok(c) => if p.rest.len() < t.len() {
                prepend(seq![c], parse_body(p.rest, depth))
            } else {
                ParsedBody { result: Err(Failure::UnterminatedRepeatError), rest: p.rest }
            },
        }
    }
}

/// Whether a result of the parser, if it is a command, is the closing
/// marker or can be executed.
pub open spec fn marker_or_finished(r: Result<Op, Failure>) -> bool {
    match r {
        Ok(c) => c == Op::EndRepeat || c.finished(),
        Err(_) => true,
    }
}

/// Putting operations in front of a block's result one after the other is
/// putting them in front together.
pub proof fn lemma_prepend_twice(front: Seq<Op>, c: Op, b: ParsedBody)
    ensures
        prepend(front, prepend(seq![c], b)) == prepend(front.push(c), b),
{
    match b.result {
        Ok(cs) => {
            assert(front + (seq![c] + cs) =~= front.push(c) + cs);
        },
        Err(_) => {},
    }
}

/// A REPEAT command says what its count and the commands of its block say.
pub proof fn lemma_repeat_view(n: u32, body: Vec<Command>)
    ensures
        Command::Repeat(n, body)@ == Op::Repeat(n as nat, ops_of(body@)),
{
    assert(Command::Repeat(n, body)@->Repeat_1 =~= ops_of(body@));
}

/// The words `rest` with the word `w` in front of them.
pub open spec fn with_first(w: Seq<char>, rest: Seq<Seq<char>>) -> Seq<Seq<char>> {
    seq![w] + rest
}

/// The short name of an instruction is read as its long name is: whatever
/// words follow, both give the same command or the same error, and leave
/// the same words.
pub proof fn lemma_short_names_read_alike(rest: Seq<Seq<char>>)
    ensures
        parse(with_first("U"@, rest)) == parse(with_first("PENUP"@, rest)),
        parse(with_first("D"@, rest)) == parse(with_first("PENDOWN"@, rest)),
        parse(with_first("L"@, rest)) == parse(with_first("LEFT"@, rest)),
        parse(with_first("R"@, rest)) == parse(with_first("RIGHT"@, rest)),
        parse(with_first("S"@, rest)) == parse(with_first("SETSIZE"@, rest)),
        parse(with_first("C"@, rest)) == parse(with_first("SETCOLOR"@, rest)),
        parse(with_first("F"@, rest)) == parse(with_first("FORWARD"@, rest)),
{
    reveal_strlit("U");
    reveal_strlit("PENUP");
    reveal_strlit("D");
    reveal_strlit("PENDOWN");
    reveal_strlit("L");
    reveal_strlit("LEFT");
    reveal_strlit("R");
    reveal_strlit("RIGHT");
    reveal_strlit("S");
    reveal_strlit("SETSIZE");
    reveal_strlit("C");
    reveal_strlit("SETCOLOR");
    reveal_strlit("F");
    reveal_strlit("FORWARD");
    assert(with_first("U"@, rest).skip(1) =~= rest);
    assert(with_first("PENUP"@, rest).skip(1) =~= rest);
    assert(with_first("D"@, rest).skip(1) =~= rest);
    assert(with_first("PENDOWN"@, rest).skip(1) =~= rest);
    assert(with_first("L"@, rest).skip(1) =~= rest);
    assert(with_first("LEFT"@, rest).skip(1) =~= rest);
    assert(with_first("R"@, rest).skip(1) =~= rest);
    assert(with_first("RIGHT"@, rest).skip(1) =~= rest);
    assert(with_first("S"@, rest).skip(1) =~= rest);
    assert(with_first("SETSIZE"@, rest).skip(1) =~= rest);
    assert(with_first("C"@, rest).skip(1) =~= rest);
    assert(with_first("SETCOLOR"@, rest).skip(1) =~= rest);
    assert(with_first("F"@, rest).skip(1) =~= rest);
    assert(with_first("FORWARD"@, rest).skip(1) =~= rest);
    assert("U"@[0] == 'U' && "D"@[0] == 'D' && "L"@[0] == 'L' && "R"@[0] == 'R' && "S"@[0] == 'S'
        && "C"@[0] == 'C' && "F"@[0] == 'F');
    assert("PENUP"@[0] == 'P' && "PENDOWN"@[0] == 'P' && "LEFT"@[0] == 'L' && "RIGHT"@[0] == 'R'
        && "SETSIZE"@[0] == 'S' && "SETCOLOR"@[0] == 'S' && "FORWARD"@[0] == 'F');
    assert("U"@.len() == 1 && "D"@.len() == 1 && "L"@.len() == 1 && "R"@.len() == 1 && "S"@.len()
        == 1 && "C"@.len() == 1 && "F"@.len() == 1);
    assert("PENUP"@.len() == 5 && "PENDOWN"@.len() == 7 && "LEFT"@.len() == 4 && "RIGHT"@.len()
        == 5 && "SETSIZE"@.len() == 7 && "SETCOLOR"@.len() == 8 && "FORWARD"@.len() == 7);
    assert("RIGHT"@[0] != "PENUP"@[0]);
    assert("SETSIZE"@[0] != "PENDOWN"@[0]);
    assert("FORWARD"@[0] != "PENDOWN"@[0] && "FORWARD"@[0] != "SETSIZE"@[0]);
}

/// Whether an operation is a single instruction, one that the parser can
/// give: no block, not the closing marker, a distance that a `u32` holds,
/// and a width that is a decimal number.
pub open spec fn is_single(op: Op) -> bool {
    match op {
        Op::Forward(n) => n <= u32::MAX,
        Op::SetSize(w) => is_decimal(w),
        Op::Repeat(_, _) => false,
        Op::EndRepeat => false,
        _ => true,
    }
}

/// The words that write a single instruction, with its long name and its
/// numbers in decimal digits.
pub open spec fn canonical(op: Op) -> Seq<Seq<char>> {
    match op {
        Op::Forward(n) => seq!["FORWARD"@, digits_of(n)],
        Op::Left => seq!["LEFT"@],
        Op::Right => seq!["RIGHT"@],
        Op::Up => seq!["PENUP"@],
        Op::Down => seq!["PENDOWN"@],
        Op::SetSize(w) => seq!["SETSIZE"@, w],
        Op::SetColor(r, g, b) => seq![
            "SETCOLOR"@,
            digits_of(r as nat),
            digits_of(g as nat),
            digits_of(b as nat),
        ],
        _ => Seq::empty(),
    }
}

/// A single instruction written in words is read back as itself, and the
/// words after it are left.
pub proof fn lemma_canonical_reads_back(op: Op, rest: Seq<Seq<char>>)
    requires
        is_single(op),
    ensures
        parse(canonical(op) + rest) == (Parsed { result: Ok(op), rest: rest }),
{
    reveal_strlit("U");
    reveal_strlit("PENUP");
    reveal_strlit("D");
    reveal_strlit("PENDOWN");
    reveal_strlit("L");
    reveal_strlit("LEFT");
    reveal_strlit("R");
    reveal_strlit("RIGHT");
    reveal_strlit("S");
    reveal_strlit("SETSIZE");
    reveal_strlit("C");
    reveal_strlit("SETCOLOR");
    reveal_strlit("F");
    reveal_strlit("FORWARD");
    assert("PENUP"@.len() == 5 && "PENDOWN"@.len() == 7 && "LEFT"@.len() == 4 && "RIGHT"@.len()
        == 5 && "SETSIZE"@.len() == 7 && "SETCOLOR"@.len() == 8 && "FORWARD"@.len() == 7);
    assert("RIGHT"@[0] != "PENUP"@[0]);
    assert("SETSIZE"@[0] != "PENDOWN"@[0]);
    assert("FORWARD"@[0] != "PENDOWN"@[0] && "FORWARD"@[0] != "SETSIZE"@[0]);
    let t = canonical(op) + rest;
    let r = t.skip(1);
    assert(t[0] == canonical(op)[0]);
    match op {
        Op::Forward(n) => {
            lemma_digits_of(n);
            assert(r[0] == digits_of(n));
            assert(r.skip(1) =~= rest);
        },
        Op::SetSize(w) => {
            assert(r[0] == w);
            assert(r.skip(1) =~= rest);
        },
        Op::SetColor(red, green, blue) => {
            lemma_digits_of(red as nat);
            lemma_digits_of(green as nat);
            lemma_digits_of(blue as nat);
            assert(r[0] == digits_of(red as nat));
            assert(r.skip(1)[0] == digits_of(green as nat));
            assert(r.skip(1).skip(1)[0] == digits_of(blue as nat));
            assert(r.skip(1).skip(1).skip(1) =~= rest);
        },
        _ => {
            assert(r =~= rest);
        },
    }
}

/// What a parser reads is never a block with the closing marker in it:
/// a command that was read is the marker itself or can be executed, and
/// reading takes at least one word where there is one.
pub proof fn lemma_parse_is_sound(t: Seq<Seq<char>>, depth: nat)
    ensures
        marker_or_finished(parse_within(t, depth).result),
        marker_or_finished(parse_repeat_within(t, depth).result),
        parse_body(t, depth).result is Ok ==> all_finished(parse_body(t, depth).result->Ok_0),
        parse_within(t, depth).rest.len() <= t.len(),
        t.len() > 0 ==> parse_within(t, depth).rest.len() < t.len(),
        parse_repeat_within(t, depth).rest.len() <= t.len(),
        parse_body(t, depth).rest.len() <= t.len(),
    decreases t.len(), 3nat,
{
    if t.len() > 0 {
        lemma_parse_inner(t, depth);
        if t.len() >= 2 && depth > 0 {
            lemma_body_is_sound(t.skip(2), (depth - 1) as nat);
            let b = parse_body(t.skip(2), (depth - 1) as nat);
            if b.result is Ok {
                lemma_repeat_finished(unsigned_of(t[0], u32::MAX as nat)->0, b.result->Ok_0);
            }
        }
        lemma_body_is_sound(t, depth);
    }
}

/// The part of the soundness of the parser that is about blocks.
pub proof fn lemma_body_is_sound(t: Seq<Seq<char>>, depth: nat)
    ensures
        parse_body(t, depth).result is Ok ==> all_finished(parse_body(t, depth).result->Ok_0),
        parse_body(t, depth).rest.len() <= t.len(),
    decreases t.len(), 2nat,
{
    if t.len() > 0 {
        lemma_parse_inner(t, depth);
        let p = parse_within(t, depth);
        if p.result is Ok && p.result->Ok_0 != Op::EndRepeat && p.rest.len() < t.len() {
            lemma_body_is_sound(p.rest, depth);
            let more = parse_body(p.rest, depth);
            if more.result is Ok {
                let c = p.result->Ok_0;
                let all = seq![c] + more.result->Ok_0;
                assert forall|i: int| 0 <= i < all.len() implies (#[trigger] all[i]).finished() by {
                    if i > 0 {
                        assert(all[i] == more.result->Ok_0[i - 1]);
                    }
                }
            }
        }
    }
}

/// The part of the soundness of the parser that is about one command.
pub proof fn lemma_parse_inner(t: Seq<Seq<char>>, depth: nat)
    requires
        t.len() > 0,
    ensures
        marker_or_finished(parse_within(t, depth).result),
        parse_within(t, depth).rest.len() < t.len(),
    decreases t.len(), 1nat,
{
    let r = t.skip(1);
    if r.len() >= 2 && depth > 0 {
        lemma_body_is_sound(r.skip(2), (depth - 1) as nat);
        let b = parse_body(r.skip(2), (depth - 1) as nat);
        if b.result is Ok {
            lemma_repeat_finished(unsigned_of(r[0], u32::MAX as nat)->0, b.result->Ok_0);
        }
    }
}

/// The text of a word that may be absent.
fn as_text(w: &Option<String>) -> (t: Option<&str>)
    ensures
        text_of(t) == crate::error::word_view(*w),
{
    match w {
        Some(s) => Some(s.as_str()),
        None => None,
    }
}

impl Command {
    /// Reads one command from the words of a line. Words after the command
    /// are not looked at.
    pub fn from_line(line: &str) -> (r: Result<Command, ParseError>)
        ensures
            outcome(r) == parse(split_words(line@)).result,
            marker_or_finished(outcome(r)),
    {
        let mut chunks = Chunks::new(line);
        Command::from_chunks(&mut chunks)
    }

    /// Reads one command from the front of a stream of words, and takes
    /// the words that it read off the stream. Blocks may stand at most
    /// `MAX_NESTING` deep inside one another.
    pub fn from_chunks(chunks: &mut Chunks) -> (r: Result<Command, ParseError>)
        ensures
            outcome(r) == parse(old(chunks)@).result,
            final(chunks)@ == parse(old(chunks)@).rest,
            final(chunks)@.len() <= old(chunks)@.len(),
            old(chunks)@.len() > 0 ==> final(chunks)@.len() < old(chunks)@.len(),
            marker_or_finished(outcome(r)),
    {
        Command::from_chunks_within(chunks, MAX_NESTING)
    }

    /// Reads one command from the front of a stream of words, where blocks
    /// may stand at most `depth` deep inside one another.
    pub fn from_chunks_within(chunks: &mut Chunks, depth: u32) -> (r: Result<
        Command,
        ParseError,
    >)
        ensures
            outcome(r) == parse_within(old(chunks)@, depth as nat).result,
            final(chunks)@ == parse_within(old(chunks)@, depth as nat).rest,
            final(chunks)@.len() <= old(chunks)@.len(),
            old(chunks)@.len() > 0 ==> final(chunks)@.len() < old(chunks)@.len(),
            marker_or_finished(outcome(r)),
        decreases old(chunks)@.len(),
    {
        match chunks.next() {
            None => Err(ParseError::EmptyCommand),
            Some(w) => {
                let word = w.as_str();
                if same_text(word, "PENUP") || same_text(word, "U") {
                    Ok(Command::Up)
                } else if same_text(word, "PENDOWN") || same_text(word, "D") {
                    Ok(Command::Down)
                } else if same_text(word, "LEFT") || same_text(word, "L") {
                    Ok(Command::Left)
                } else if same_text(word, "RIGHT") || same_text(word, "R") {
                    Ok(Command::Right)
                } else if same_text(word, "SETSIZE") || same_text(word, "S") {
                    let arg = chunks.next();
                    Command::setsize_from_str(as_text(&arg))
                } else if same_text(word, "SETCOLOR") || same_text(word, "C") {
                    Command::setcolor_from_chunks(chunks)
                } else if same_text(word, "FORWARD") || same_text(word, "F") {
                    let arg = chunks.next();
                    Command::forward_from_str(as_text(&arg))
                } else if same_text(word, "REPEAT") {
                    Command::repeat_within(chunks, depth)
                } else if same_text(word, "]") {
                    Ok(Command::EndRepeat)
                } else {
                    Err(ParseError::InvalidCommand(w))
                }
            },
        }
    }

    /// Reads the argument of FORWARD.
    pub fn forward_from_str(distance: Option<&str>) -> (r: Result<Command, ParseError>)
        ensures
            outcome(r) == forward_of(text_of(distance)),
    {
        match distance {
            Some(text) => match parse_unsigned(text, u32::MAX) {
                Some(n) => Ok(Command::Forward(n)),
                None => Err(
                    ParseError::NumericParseError(String::from_str(text), NumberKind::Unsigned),
                ),
            },
            None => Err(ParseError::MissingParameter(Instruction::Forward, NumberKind::Unsigned)),
        }
    }

    /// Reads the argument of SETSIZE.
    pub fn setsize_from_str(distance: Option<&str>) -> (r: Result<Command, ParseError>)
        ensures
            outcome(r) == setsize_of(text_of(distance)),
    {
        match distance {
            Some(text) => if is_decimal_text(text) {
                Ok(Command::SetSize(String::from_str(text)))
            } else {
                Err(ParseError::NumericParseError(String::from_str(text), NumberKind::Decimal))
            },
            None => Err(ParseError::MissingParameter(Instruction::SetSize, NumberKind::Decimal)),
        }
    }

    /// Brings a hexadecimal colour into its long form.
    pub fn normalize_hex_str(s: &str) -> (r: Result<Vec<char>, ParseError>)
        ensures
            match normal_hex(s@) {
                Some(n) => r is Ok && r->Ok_0@ == n,
                None => r is Err && r->Err_0@ == Failure::HexFormatError(s@),
            },
    {
        let c = chars_of(s);
        let n = c.len();
        if n < 2 || c[0] != '0' || c[1] != 'x' {
            return Err(ParseError::HexFormatError(String::from_str(s)));
        }
        if n == 8 {
            Ok(c)
        } else if n == 3 {
            let long = vec!['0', 'x', c[2], c[2], c[2], c[2], c[2], c[2]];
            assert(long@ =~= normal_hex(s@)->0);
            Ok(long)
        } else if n == 5 {
            let long = vec!['0', 'x', c[2], c[2], c[3], c[3], c[4], c[4]];
            assert(long@ =~= normal_hex(s@)->0);
            Ok(long)
        } else {
            Err(ParseError::HexFormatError(String::from_str(s)))
        }
    }

    /// Reads a hexadecimal colour.
    pub fn colors_from_hex(s: &str) -> (r: Result<(u8, u8, u8), ParseError>)
        ensures
            match hex_color(s@) {
                Some(c) => r == Ok::<(u8, u8, u8), ParseError>(c),
                None => r is Err && r->Err_0@ == Failure::HexFormatError(s@),
            },
    {
        let long = match Command::normalize_hex_str(s) {
            Ok(long) => long,
            Err(e) => {
                return Err(e);
            },
        };
        let mut values: Vec<u8> = Vec::new();
        let mut i: usize = 2;
        while i < 8
            invariant
                2 <= i <= 8,
                long@.len() == 8,
                normal_hex(s@) == Some(long@),
                values@.len() == i - 2,
                forall|j: int| 2 <= j < i ==> is_hex_digit(#[trigger] long@[j]),
                forall|j: int|
                    2 <= j < i ==> values@[j - 2] == hex_value(#[trigger] long@[j]) && values@[j
                        - 2] < 16,
            decreases 8 - i,
        {
            match hex_digit(long[i]) {
                Some(v) => {
                    values.push(v);
                },
                None => {
                    assert(!is_hex_digit(long@[i as int]));
                    return Err(ParseError::HexFormatError(String::from_str(s)));
                },
            }
            i += 1;
        }
        Ok(
            (
                values[0] * 16 + values[1],
                values[2] * 16 + values[3],
                values[4] * 16 + values[5],
            ),
        )
    }

    /// Reads the next word as a colour component.
    pub fn next_int_chunk(chunks: &mut Chunks) -> (r: Result<u8, ParseError>)
        ensures
            match r {
                Ok(v) => byte_of(first_of(old(chunks)@)) == Ok::<u8, Failure>(v),
                Err(e) => byte_of(first_of(old(chunks)@)) == Err::<u8, Failure>(e@),
            },
            final(chunks)@ == after_first(old(chunks)@),
    {
        match chunks.next() {
            None => Err(ParseError::MissingParameter(Instruction::SetColor, NumberKind::Byte)),
            Some(w) => match parse_unsigned(w.as_str(), 255) {
                Some(v) => Ok(v as u8),
                None => Err(ParseError::ColorParseError(w)),
            },
        }
    }

    /// Reads the arguments of SETCOLOR.
    pub fn setcolor_from_chunks(chunks: &mut Chunks) -> (r: Result<Command, ParseError>)
        ensures
            outcome(r) == parse_color(old(chunks)@).result,
            final(chunks)@ == parse_color(old(chunks)@).rest,
            final(chunks)@.len() <= old(chunks)@.len(),
            marker_or_finished(outcome(r)),
    {
        let first = match chunks.next() {
            None => {
                return Err(
                    ParseError::MissingParameter(Instruction::SetColor, NumberKind::Byte),
                );
            },
            Some(w) => w,
        };
        match parse_unsigned(first.as_str(), 255) {
            Some(red) => {
                let green = match Command::next_int_chunk(chunks) {
                    Ok(v) => v,
                    Err(e) => {
                        return Err(e);
                    },
                };
                let blue = match Command::next_int_chunk(chunks) {
                    Ok(v) => v,
                    Err(e) => {
                        return Err(e);
                    },
                };
                Ok(Command::SetColor(red as u8, green, blue))
            },
            None => match Command::colors_from_hex(first.as_str()) {
                Ok(c) => Ok(Command::SetColor(c.0, c.1, c.2)),
                Err(e) => Err(e),
            },
        }
    }

    /// Reads the count and the block of REPEAT. Blocks may stand at most
    /// `MAX_NESTING` deep inside one another, this one counted.
    pub fn repeat_from_split(chunks: &mut Chunks) -> (r: Result<Command, ParseError>)
        ensures
            outcome(r) == parse_repeat(old(chunks)@).result,
            final(chunks)@ == parse_repeat(old(chunks)@).rest,
            final(chunks)@.len() <= old(chunks)@.len(),
            marker_or_finished(outcome(r)),
    {
        Command::repeat_within(chunks, MAX_NESTING)
    }

    /// Reads the count and the block of REPEAT, where blocks may stand at
    /// most `depth` deep inside one another, this one counted.
    #[verifier::loop_isolation(false)]
    pub fn repeat_within(chunks: &mut Chunks, depth: u32) -> (r: Result<Command, ParseError>)
        ensures
            outcome(r) == parse_repeat_within(old(chunks)@, depth as nat).result,
            final(chunks)@ == parse_repeat_within(old(chunks)@, depth as nat).rest,
            final(chunks)@.len() <= old(chunks)@.len(),
            marker_or_finished(outcome(r)),
        decreases old(chunks)@.len(),
    {
        if depth == 0 {
            return Err(ParseError::NestingTooDeep);
        }
        let ghost inner = (depth - 1) as nat;
        let n: u32 = match chunks.next() {
            Some(text) => match parse_unsigned(text.as_str(), u32::MAX) {
                Some(n) => n,
                None => {
                    return Err(ParseError::RepeatCountError(Some(text)));
                },
            },
            None => {
                return Err(ParseError::RepeatCountError(None));
            },
        };
        match chunks.next() {
            Some(s) => {
                if !same_text(s.as_str(), "[") {
                    return Err(ParseError::RepeatOpenBracketError(Some(s)));
                }
            },
            None => {
                return Err(ParseError::RepeatOpenBracketError(None));
            },
        }
        let ghost start = chunks@;
        assert(start =~= old(chunks)@.skip(2));
        let mut commands: Vec<Command> = Vec::new();
        assert(ops_of(commands@) =~= Seq::<Op>::empty());
        assert(prepend(Seq::<Op>::empty(), parse_body(start, inner)) == parse_body(start, inner))
            by {
            match parse_body(start, inner).result {
                Ok(cs) => {
                    assert(Seq::<Op>::empty() + cs =~= cs);
                },
                Err(_) => {},
            }
        }
        loop
            invariant
                start.len() < old(chunks)@.len(),
                chunks@.len() <= start.len(),
                parse_body(start, inner) == prepend(
                    ops_of(commands@),
                    parse_body(chunks@, inner),
                ),
                all_finished(ops_of(commands@)),
            decreases chunks@.len(),
        {
            if chunks.remaining() == 0 {
                return Err(ParseError::UnterminatedRepeatError);
            }
            let ghost before = chunks@;
            let ghost front = ops_of(commands@);
            match Command::from_chunks_within(chunks, depth - 1) {
                Ok(Command::EndRepeat) => {
                    proof {
                        assert(front + Seq::<Op>::empty() =~= front);
                    }
                    let done = Command::Repeat(n, commands);
                    proof {
                        lemma_repeat_view(n, commands);
                        lemma_repeat_finished(n as nat, front);
                    }
                    return Ok(done);
                },
                Ok(c) => {
                    proof {
                        lemma_prepend_twice(front, c@, parse_body(chunks@, inner));
                    }
                    commands.push(c);
                    assert(ops_of(commands@) =~= front.push(c@));
                },
                Err(e) => {
                    return Err(e);
                },
            }
        }
    }

    /// Whether the command can be executed: neither it nor any block
    /// inside it is the closing marker.
    #[verifier::loop_isolation(false)]
    pub fn is_finished(&self) -> (r: bool)
        ensures
            r == self@.finished(),
        decreases self,
    {
        match self {
            Command::EndRepeat => false,
            Command::Repeat(n, body) => {
                proof {
                    lemma_repeat_view(*n, *body);
                }
                let mut i: usize = 0;
                while i < body.len()
                    invariant
                        i <= body.len(),
                        forall|j: int| 0 <= j < i ==> (#[trigger] body@[j])@.finished(),
                    decreases body.len() - i,
                {
                    if !body[i].is_finished() {
                        assert(ops_of(body@)[i as int] == body@[i as int]@);
                        assert(self@ == Op::Repeat(*n as nat, ops_of(body@)));
                        assert(!ops_of(body@)[i as int].finished());
                        proof {
                            lemma_repeat_finished(*n as nat, ops_of(body@));
                        }
                        return false;
                    }
                    i += 1;
                }
                proof {
                    assert forall|j: int| 0 <= j < ops_of(body@).len() implies (
                    #[trigger] ops_of(body@)[j]).finished() by {
                        assert(ops_of(body@)[j] == body@[j]@);
                    }
                    lemma_repeat_finished(*n as nat, ops_of(body@));
                }
                true
            },
            _ => true,
        }
    }
}

} // verus!
