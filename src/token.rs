//! Lexical tokens of the assembly language and the rules that classify raw
//! words into them.
use vstd::prelude::*;

verus! {

/// Why a word of source text could not be classified.
#[derive(Copy, Clone, Debug, PartialEq, Eq, Structural)]
pub enum TokenizingError {
    BadArchitecture,
    BadLabel,
    BadMemory,
    BadNumber,
    BadPort,
    HighByte,
    UnknownToken,
}

impl TokenizingError {
    pub fn help_msg(self) -> (r: &'static str)
        ensures
            r@ == tokenizing_help(self),
    {
        proof {
            reveal_strlit("only 8-bits architecture is supported");
            reveal_strlit(
                "valid labels are formed by letters, numbers, and underscores; and may not start with numbers",
            );
            reveal_strlit("only number literals and registers may be memory locations");
            reveal_strlit(
                "number literals must start with a digit. Decimals may have a trailing `d`. Hexadecimals must either start with `0x` or end with an `h`; binaries with `0b` or `b`.",
            );
            reveal_strlit("only I/O ports from 0 to 3 are currently supported");
            reveal_strlit("use the lower byte, by switching from `h` to `l`");
            reveal_strlit("???");
        }
        match self {
            TokenizingError::BadArchitecture => "only 8-bits architecture is supported",
            TokenizingError::BadLabel =>
                "valid labels are formed by letters, numbers, and underscores; and may not start with numbers",
            TokenizingError::BadMemory => "only number literals and registers may be memory locations",
            TokenizingError::BadNumber =>
                "number literals must start with a digit. Decimals may have a trailing `d`. Hexadecimals must either start with `0x` or end with an `h`; binaries with `0b` or `b`.",
            TokenizingError::BadPort => "only I/O ports from 0 to 3 are currently supported",
            TokenizingError::HighByte => "use the lower byte, by switching from `h` to `l`",
            TokenizingError::UnknownToken => "???",
        }
    }
}

/// The help text shown beside each tokenizing error.
pub open spec fn tokenizing_help(e: TokenizingError) -> Seq<char> {
    match e {
        TokenizingError::BadArchitecture => "only 8-bits architecture is supported"@,
        TokenizingError::BadLabel =>
            "valid labels are formed by letters, numbers, and underscores; and may not start with numbers"@,
        TokenizingError::BadMemory => "only number literals and registers may be memory locations"@,
        TokenizingError::BadNumber =>
            "number literals must start with a digit. Decimals may have a trailing `d`. Hexadecimals must either start with `0x` or end with an `h`; binaries with `0b` or `b`."@,
        TokenizingError::BadPort => "only I/O ports from 0 to 3 are currently supported"@,
        TokenizingError::HighByte => "use the lower byte, by switching from `h` to `l`"@,
        TokenizingError::UnknownToken => "???"@,
    }
}

/// The operation codes of the processor.
#[derive(Copy, Clone, Debug, PartialEq, Eq, Structural)]
pub enum Mnemonic {
    Add,
    Sub,
    Or,
    And,
    Xor,
    Not,
    Mov,
    Inc,
    Jmp,
    Jmpc,
    Jmpz,
    Call,
    Ret,
    Push,
    Pop,
    Pusha,
    Popa,
}

/// How many operands a statement with this mnemonic takes.
pub open spec fn arity(m: Mnemonic) -> nat {
    match m {
        Mnemonic::Add | Mnemonic::Sub | Mnemonic::Or | Mnemonic::And | Mnemonic::Xor
        | Mnemonic::Not | Mnemonic::Mov | Mnemonic::Inc => 2,
        Mnemonic::Jmp | Mnemonic::Jmpc | Mnemonic::Jmpz | Mnemonic::Call | Mnemonic::Push
        | Mnemonic::Pop => 1,
        Mnemonic::Ret | Mnemonic::Pusha | Mnemonic::Popa => 0,
    }
}

impl Mnemonic {
    pub fn operands_required(self) -> (r: usize)
        ensures
            r == arity(self),
    {
        match self {
            Mnemonic::Add | Mnemonic::Sub | Mnemonic::Or | Mnemonic::And | Mnemonic::Xor
            | Mnemonic::Not | Mnemonic::Mov | Mnemonic::Inc => 2,
            Mnemonic::Jmp | Mnemonic::Jmpc | Mnemonic::Jmpz | Mnemonic::Call | Mnemonic::Push
            | Mnemonic::Pop => 1,
            _ => 0,
        }
    }
}

/// An I/O port of the processor.
#[derive(Copy, Clone, Debug, PartialEq, Eq, Structural)]
pub enum Port {
    Input(u8),
    Output(u8),
}

impl Port {
    pub open spec fn number(self) -> u8 {
        match self {
            Port::Input(n) => n,
            Port::Output(n) => n,
        }
    }

    pub fn port_number(self) -> (r: u8)
        ensures
            r == self.number(),
    {
        match self {
            Port::Input(port) => port,
            Port::Output(port) => port,
        }
    }
}

/// The 8-bit general purpose registers.
#[derive(Copy, Clone, Debug, PartialEq, Eq, Structural)]
pub enum Register {
    B,
    C,
    D,
    E,
}

/// An operand of a statement.
#[derive(Debug)]
pub enum Primitive {
    Number(u8),
    Port(Port),
    Register(Register),
    Accumulator,
    Memory(u16),
    DynamicMemory(Register),
    DynamicMemoryAccumulator,
    Label(String),
}

/// What a `Primitive` denotes, with a label seen as its characters.
pub enum Operand {
    Number(u8),
    Port(Port),
    Register(Register),
    Accumulator,
    Memory(u16),
    DynamicMemory(Register),
    DynamicMemoryAccumulator,
    Label(Seq<char>),
}

impl View for Primitive {
    type V = Operand;

    open spec fn view(&self) -> Operand {
        match self {
            Primitive::Number(n) => Operand::Number(*n),
            Primitive::Port(p) => Operand::Port(*p),
            Primitive::Register(r) => Operand::Register(*r),
            Primitive::Accumulator => Operand::Accumulator,
            Primitive::Memory(m) => Operand::Memory(*m),
            Primitive::DynamicMemory(r) => Operand::DynamicMemory(*r),
            Primitive::DynamicMemoryAccumulator => Operand::DynamicMemoryAccumulator,
            Primitive::Label(s) => Operand::Label(s@),
        }
    }
}

impl Clone for Primitive {
    fn clone(&self) -> (r: Self)
        ensures
            r == *self,
    {
        match self {
            Primitive::Number(n) => Primitive::Number(*n),
            Primitive::Port(p) => Primitive::Port(*p),
            Primitive::Register(r) => Primitive::Register(*r),
            Primitive::Accumulator => Primitive::Accumulator,
            Primitive::Memory(m) => Primitive::Memory(*m),
            Primitive::DynamicMemory(r) => Primitive::DynamicMemory(*r),
            Primitive::DynamicMemoryAccumulator => Primitive::DynamicMemoryAccumulator,
            Primitive::Label(s) => Primitive::Label(s.clone()),
        }
    }
}

pub open spec fn is_digit(c: char) -> bool {
    '0' <= c && c <= '9'
}

pub open spec fn is_label_char(c: char) -> bool {
    ('a' <= c && c <= 'z') || ('A' <= c && c <= 'Z') || is_digit(c) || c == '_'
}

/// A label is a letter or `_` followed by letters, digits and `_`.
pub open spec fn is_label_text(s: Seq<char>) -> bool {
    &&& s.len() > 0
    &&& !is_digit(s[0])
    &&& forall|i: int| 0 <= i < s.len() ==> is_label_char(#[trigger] s[i])
}

impl Primitive {
    pub fn is_label(src: &[char]) -> (r: bool)
        ensures
            r == is_label_text(src@),
    {
        if src.len() == 0 || ('0' <= src[0] && src[0] <= '9') {
            return false;
        }
        let mut i: usize = 0;
        while i < src.len()
            invariant
                i <= src@.len(),
                forall|j: int| 0 <= j < i ==> is_label_char(#[trigger] src@[j]),
            decreases src@.len() - i,
        {
            let c = src[i];
            if !(('a' <= c && c <= 'z') || ('A' <= c && c <= 'Z') || ('0' <= c && c <= '9')
                || c == '_') {
                return false;
            }
            i += 1;
        }
        true
    }
}

/// The value of a digit in any radix up to 36, or 36 for a character that is
/// no digit.
pub open spec fn digit_value(c: char) -> nat {
    if '0' <= c && c <= '9' {
        ((c as u32) - ('0' as u32)) as nat
    } else if 'a' <= c && c <= 'z' {
        ((c as u32) - ('a' as u32) + 10) as nat
    } else if 'A' <= c && c <= 'Z' {
        ((c as u32) - ('A' as u32) + 10) as nat
    } else {
        36
    }
}

/// The value of a string of digits in `radix`, most significant first.
pub open spec fn digits_value(s: Seq<char>, radix: nat) -> Option<nat>
    decreases s.len(),
{
    if s.len() == 0 {
        Some(0)
    } else {
        match digits_value(s.drop_last(), radix) {
            Some(v) => if digit_value(s.last()) < radix {
                Some(v * radix + digit_value(s.last()))
            } else {
                None
            },
            None => None,
        }
    }
}

/// The byte that a string of digits denotes, if it fits in one.
pub open spec fn byte_value(s: Seq<char>, radix: nat) -> Option<u8> {
    if s.len() == 0 {
        None
    } else {
        match digits_value(s, radix) {
            Some(v) => if v <= 255 {
                Some(v as u8)
            } else {
                None
            },
            None => None,
        }
    }
}

/// An unsigned number literal: `<digits>`, `<digits>d`, `<hex>h`, `0x<hex>`,
/// `<bin>b` or `0b<bin>`.
pub open spec fn unsigned_number(s: Seq<char>) -> Option<u8> {
    if s.len() >= 2 && s[0] == '0' && s[1] == 'x' {
        byte_value(s.skip(2), 16)
    } else if s.len() > 0 && s.last() == 'b' {
        byte_value(s.drop_last(), 2)
    } else if s.len() > 0 && s.last() == 'd' {
        byte_value(s.drop_last(), 10)
    } else if s.len() > 0 && s.last() == 'h' {
        byte_value(s.drop_last(), 16)
    } else if s.len() >= 2 && s[0] == '0' && s[1] == 'b' {
        byte_value(s.skip(2), 2)
    } else {
        byte_value(s, 10)
    }
}

/// A number literal with an optional sign; `-` takes the two's complement.
pub open spec fn number_literal(s: Seq<char>) -> Option<u8> {
    if s.len() > 0 && s[0] == '-' {
        match unsigned_number(s.skip(1)) {
            Some(b) => Some(((256 - b) % 256) as u8),
            None => None,
        }
    } else if s.len() > 0 && s[0] == '+' {
        unsigned_number(s.skip(1))
    } else {
        unsigned_number(s)
    }
}

fn digit_of(c: char) -> (r: u32)
    ensures
        r == digit_value(c),
{
    if '0' <= c && c <= '9' {
        (c as u32) - ('0' as u32)
    } else if 'a' <= c && c <= 'z' {
        (c as u32) - ('a' as u32) + 10
    } else if 'A' <= c && c <= 'Z' {
        (c as u32) - ('A' as u32) + 10
    } else {
        36
    }
}

/// Reads the digits `s[lo..hi]` in `radix` as a byte.
fn fold_byte(s: &[char], lo: usize, hi: usize, radix: u32) -> (r: Option<u8>)
    requires
        lo <= hi <= s@.len(),
        2 <= radix <= 16,
    ensures
        r == byte_value(s@.subrange(lo as int, hi as int), radix as nat),
{
    // `num` saturates at 256: past that the literal no longer fits anyway.
    let mut num: u32 = 0;
    let mut bad = false;
    let mut i: usize = lo;
    while i < hi
        invariant
            lo <= i <= hi <= s@.len(),
            2 <= radix <= 16,
            num <= 256,
            match digits_value(s@.subrange(lo as int, i as int), radix as nat) {
                Some(v) => !bad && num == (if v > 255 {
                    256
                } else {
                    v
                }),
                None => bad,
            },
        decreases hi - i,
    {
        let ghost prev = s@.subrange(lo as int, i as int);
        let ghost next = s@.subrange(lo as int, i + 1);
        assert(next.drop_last() =~= prev);
        assert(next.last() == s@[i as int]);
        let d = digit_of(s[i]);
        if !bad {
            let ghost v = digits_value(prev, radix as nat)->Some_0;
            if d >= radix {
                bad = true;
            } else if num > 255 {
                assert(v * radix + d > 255) by (nonlinear_arith)
                    requires
                        v > 255,
                        radix >= 2,
                ;
            } else {
                assert(num * radix + d <= 255 * 16 + 16) by (nonlinear_arith)
                    requires
                        num <= 255,
                        radix <= 16,
                        d < 16,
                ;
                num = num * radix + d;
                if num > 255 {
                    num = 256;
                }
            }
        }
        i += 1;
    }
    assert(s@.subrange(lo as int, hi as int) =~= s@.subrange(lo as int, i as int));
    if lo == hi || bad || num > 255 {
        None
    } else {
        Some(num as u8)
    }
}

/// Reads an unsigned number literal from `s[lo..]`.
fn unsigned_number_from(s: &[char], lo: usize) -> (r: Option<u8>)
    requires
        lo <= s@.len(),
    ensures
        r == unsigned_number(s@.skip(lo as int)),
{
    let ghost t = s@.skip(lo as int);
    let n = s.len();
    if n - lo >= 2 && s[lo] == '0' && s[lo + 1] == 'x' {
        assert(t.skip(2) =~= s@.subrange(lo + 2, n as int));
        fold_byte(s, lo + 2, n, 16)
    } else if n > lo && s[n - 1] == 'b' {
        assert(t.drop_last() =~= s@.subrange(lo as int, n - 1));
        fold_byte(s, lo, n - 1, 2)
    } else if n > lo && s[n - 1] == 'd' {
        assert(t.drop_last() =~= s@.subrange(lo as int, n - 1));
        fold_byte(s, lo, n - 1, 10)
    } else if n > lo && s[n - 1] == 'h' {
        assert(t.drop_last() =~= s@.subrange(lo as int, n - 1));
        fold_byte(s, lo, n - 1, 16)
    } else if n - lo >= 2 && s[lo] == '0' && s[lo + 1] == 'b' {
        assert(t.skip(2) =~= s@.subrange(lo + 2, n as int));
        fold_byte(s, lo + 2, n, 2)
    } else {
        assert(t =~= s@.subrange(lo as int, n as int));
        fold_byte(s, lo, n, 10)
    }
}

/// Reads a number literal, with an optional sign.
pub fn try_to_number(src: &[char]) -> (r: Option<u8>)
    ensures
        r == number_literal(src@),
{
    if src.len() > 0 && src[0] == '-' {
        match unsigned_number_from(src, 1) {
            Some(b) => Some(if b == 0 {
                0
            } else {
                (256 - b as u16) as u8
            }),
            None => None,
        }
    } else if src.len() > 0 && src[0] == '+' {
        unsigned_number_from(src, 1)
    } else {
        assert(src@.skip(0) =~= src@);
        unsigned_number_from(src, 0)
    }
}

/// The characters with `A`..=`Z` mapped to `a`..=`z`.
pub open spec fn lower_text(s: Seq<char>) -> Seq<char> {
    s.map_values(|c: char| ascii_lower(c))
}

pub open spec fn ascii_lower(c: char) -> char {
    if 'A' <= c && c <= 'Z' {
        ((c as u32) + 32) as char
    } else {
        c
    }
}

pub fn to_lower(c: char) -> (r: char)
    ensures
        r == ascii_lower(c),
{
    if 'A' <= c && c <= 'Z' {
        ((c as u8) + 32) as char
    } else {
        c
    }
}

/// Whether `s` spells the word `w`.
fn is_word(s: &[char], w: &[char]) -> (r: bool)
    ensures
        r == (s@ == w@),
{
    if s.len() != w.len() {
        return false;
    }
    let mut i: usize = 0;
    while i < s.len()
        invariant
            s@.len() == w@.len(),
            i <= s@.len(),
            forall|j: int| 0 <= j < i ==> s@[j] == w@[j],
        decreases s@.len() - i,
    {
        if s[i] != w[i] {
            return false;
        }
        i += 1;
    }
    assert(s@ =~= w@);
    true
}

/// Whether `s` spells the lower-case word `w`, in any case.
fn is_word_any_case(s: &[char], w: &[char]) -> (r: bool)
    ensures
        r == (lower_text(s@) == w@),
{
    if s.len() != w.len() {
        return false;
    }
    let mut i: usize = 0;
    while i < s.len()
        invariant
            s@.len() == w@.len(),
            i <= s@.len(),
            forall|j: int| 0 <= j < i ==> ascii_lower(s@[j]) == w@[j],
        decreases s@.len() - i,
    {
        if to_lower(s[i]) != w[i] {
            assert(lower_text(s@)[i as int] != w@[i as int]);
            return false;
        }
        i += 1;
    }
    assert(lower_text(s@) =~= w@);
    true
}

/// The mnemonic that a word names, in any case.
pub open spec fn mnemonic_text(s: Seq<char>) -> Option<Mnemonic> {
    let l = lower_text(s);
    if l == seq!['a', 'd', 'd'] {
        Some(Mnemonic::Add)
    } else if l == seq!['s', 'u', 'b'] {
        Some(Mnemonic::Sub)
    } else if l == seq!['o', 'r'] {
        Some(Mnemonic::Or)
    } else if l == seq!['a', 'n', 'd'] {
        Some(Mnemonic::And)
    } else if l == seq!['x', 'o', 'r'] {
        Some(Mnemonic::Xor)
    } else if l == seq!['n', 'o', 't'] {
        Some(Mnemonic::Not)
    } else if l == seq!['m', 'o', 'v'] {
        Some(Mnemonic::Mov)
    } else if l == seq!['i', 'n', 'c'] {
        Some(Mnemonic::Inc)
    } else if l == seq!['j', 'm', 'p'] {
        Some(Mnemonic::Jmp)
    } else if l == seq!['j', 'm', 'p', 'c'] || l == seq!['j', 'c'] {
        Some(Mnemonic::Jmpc)
    } else if l == seq!['j', 'm', 'p', 'z'] || l == seq!['j', 'e'] || l == seq!['j', 'z'] {
        Some(Mnemonic::Jmpz)
    } else if l == seq!['c', 'a', 'l', 'l'] {
        Some(Mnemonic::Call)
    } else if l == seq!['r', 'e', 't'] {
        Some(Mnemonic::Ret)
    } else if l == seq!['p', 'u', 's', 'h'] {
        Some(Mnemonic::Push)
    } else if l == seq!['p', 'o', 'p'] {
        Some(Mnemonic::Pop)
    } else if l == seq!['p', 'u', 's', 'h', 'a'] {
        Some(Mnemonic::Pusha)
    } else if l == seq!['p', 'o', 'p', 'a'] {
        Some(Mnemonic::Popa)
    } else {
        None
    }
}

impl Mnemonic {
    /// Reads a mnemonic, in any case.
    pub fn parse(s: &[char]) -> (r: Option<Mnemonic>)
        ensures
            r == mnemonic_text(s@),
    {
        if is_word_any_case(s, &['a', 'd', 'd']) {
            Some(Mnemonic::Add)
        } else if is_word_any_case(s, &['s', 'u', 'b']) {
            Some(Mnemonic::Sub)
        } else if is_word_any_case(s, &['o', 'r']) {
            Some(Mnemonic::Or)
        } else if is_word_any_case(s, &['a', 'n', 'd']) {
            Some(Mnemonic::And)
        } else if is_word_any_case(s, &['x', 'o', 'r']) {
            Some(Mnemonic::Xor)
        } else if is_word_any_case(s, &['n', 'o', 't']) {
            Some(Mnemonic::Not)
        } else if is_word_any_case(s, &['m', 'o', 'v']) {
            Some(Mnemonic::Mov)
        } else if is_word_any_case(s, &['i', 'n', 'c']) {
            Some(Mnemonic::Inc)
        } else if is_word_any_case(s, &['j', 'm', 'p']) {
            Some(Mnemonic::Jmp)
        } else if is_word_any_case(s, &['j', 'm', 'p', 'c']) || is_word_any_case(s, &['j', 'c']) {
            Some(Mnemonic::Jmpc)
        } else if is_word_any_case(s, &['j', 'm', 'p', 'z']) || is_word_any_case(s, &['j', 'e'])
            || is_word_any_case(s, &['j', 'z']) {
            Some(Mnemonic::Jmpz)
        } else if is_word_any_case(s, &['c', 'a', 'l', 'l']) {
            Some(Mnemonic::Call)
        } else if is_word_any_case(s, &['r', 'e', 't']) {
            Some(Mnemonic::Ret)
        } else if is_word_any_case(s, &['p', 'u', 's', 'h']) {
            Some(Mnemonic::Push)
        } else if is_word_any_case(s, &['p', 'o', 'p']) {
            Some(Mnemonic::Pop)
        } else if is_word_any_case(s, &['p', 'u', 's', 'h', 'a']) {
            Some(Mnemonic::Pusha)
        } else if is_word_any_case(s, &['p', 'o', 'p', 'a']) {
            Some(Mnemonic::Popa)
        } else {
            None
        }
    }
}

/// A port is `in<n>` or `out<n>` with `n` in `0..=3`.
pub open spec fn port_text(s: Seq<char>) -> Result<Port, TokenizingError> {
    if s.len() > 0 && '0' <= s.last() && s.last() <= '3' {
        let n = ((s.last() as u32) - ('0' as u32)) as u8;
        if s.drop_last() == seq!['i', 'n'] {
            Ok(Port::Input(n))
        } else if s.drop_last() == seq!['o', 'u', 't'] {
            Ok(Port::Output(n))
        } else {
            Err(TokenizingError::UnknownToken)
        }
    } else if s.len() > 0 && '4' <= s.last() && s.last() <= '9' {
        Err(TokenizingError::BadPort)
    } else {
        Err(TokenizingError::UnknownToken)
    }
}

impl Port {
    pub fn parse(s: &[char]) -> (r: Result<Port, TokenizingError>)
        ensures
            r == port_text(s@),
    {
        let n = s.len();
        if n > 0 && '0' <= s[n - 1] && s[n - 1] <= '3' {
            let num = ((s[n - 1] as u32) - ('0' as u32)) as u8;
            let head = copy_range(s, 0, n - 1);
            assert(head@ == s@.drop_last());
            if is_word(head.as_slice(), &['i', 'n']) {
                Ok(Port::Input(num))
            } else if is_word(head.as_slice(), &['o', 'u', 't']) {
                Ok(Port::Output(num))
            } else {
                Err(TokenizingError::UnknownToken)
            }
        } else if n > 0 && '4' <= s[n - 1] && s[n - 1] <= '9' {
            Err(TokenizingError::BadPort)
        } else {
            Err(TokenizingError::UnknownToken)
        }
    }
}

/// A register is `bl`, `cl`, `dl` or `el`; the wider and the high-byte names
/// are told apart from unknown words.
pub open spec fn register_text(s: Seq<char>) -> Result<Register, TokenizingError> {
    if s == seq!['r', 'b', 'x'] || s == seq!['r', 'c', 'x'] || s == seq!['r', 'd', 'x'] || s
        == seq!['r', 'e', 'x'] || s == seq!['e', 'b', 'x'] || s == seq!['e', 'c', 'x'] || s
        == seq!['e', 'd', 'x'] || s == seq!['e', 'e', 'x'] || s == seq!['b', 'x'] || s == seq![
        'c',
        'x',
    ] || s == seq!['d', 'x'] || s == seq!['e', 'x'] {
        Err(TokenizingError::BadArchitecture)
    } else if s == seq!['b', 'h'] || s == seq!['c', 'h'] || s == seq!['d', 'h'] || s == seq![
        'e',
        'h',
    ] {
        Err(TokenizingError::HighByte)
    } else if s == seq!['b', 'l'] {
        Ok(Register::B)
    } else if s == seq!['c', 'l'] {
        Ok(Register::C)
    } else if s == seq!['d', 'l'] {
        Ok(Register::D)
    } else if s == seq!['e', 'l'] {
        Ok(Register::E)
    } else {
        Err(TokenizingError::UnknownToken)
    }
}

impl Register {
    pub fn parse(s: &[char]) -> (r: Result<Register, TokenizingError>)
        ensures
            r == register_text(s@),
    {
        if is_word(s, &['r', 'b', 'x']) || is_word(s, &['r', 'c', 'x']) || is_word(
            s,
            &['r', 'd', 'x'],
        ) || is_word(s, &['r', 'e', 'x']) || is_word(s, &['e', 'b', 'x']) || is_word(
            s,
            &['e', 'c', 'x'],
        ) || is_word(s, &['e', 'd', 'x']) || is_word(s, &['e', 'e', 'x']) || is_word(
            s,
            &['b', 'x'],
        ) || is_word(s, &['c', 'x']) || is_word(s, &['d', 'x']) || is_word(s, &['e', 'x']) {
            Err(TokenizingError::BadArchitecture)
        } else if is_word(s, &['b', 'h']) || is_word(s, &['c', 'h']) || is_word(s, &['d', 'h'])
            || is_word(s, &['e', 'h']) {
            Err(TokenizingError::HighByte)
        } else if is_word(s, &['b', 'l']) {
            Ok(Register::B)
        } else if is_word(s, &['c', 'l']) {
            Ok(Register::C)
        } else if is_word(s, &['d', 'l']) {
            Ok(Register::D)
        } else if is_word(s, &['e', 'l']) {
            Ok(Register::E)
        } else {
            Err(TokenizingError::UnknownToken)
        }
    }
}

/// Whether a word is read as a number: it starts with a digit or a sign.
pub open spec fn starts_number(s: Seq<char>) -> bool {
    s.len() > 0 && (is_digit(s[0]) || s[0] == '+' || s[0] == '-')
}

/// A quoted ASCII character, `"x"` or `'x'`.
pub open spec fn is_quoted_char(s: Seq<char>) -> bool {
    &&& s.len() == 3
    &&& (s[0] == '"' && s[2] == '"') || (s[0] == '\'' && s[2] == '\'')
    &&& (s[1] as u32) < 128
}

/// The operand that a word denotes.
pub open spec fn primitive_text(s: Seq<char>) -> Result<Operand, TokenizingError>
    decreases s.len(),
{
    if starts_number(s) {
        match number_literal(s) {
            Some(n) => Ok(Operand::Number(n)),
            None => Err(TokenizingError::BadNumber),
        }
    } else if is_quoted_char(s) {
        Ok(Operand::Number((s[1] as u32) as u8))
    } else if s == seq!['r', 'a', 'x'] || s == seq!['e', 'a', 'x'] || s == seq!['a', 'x'] {
        Err(TokenizingError::BadArchitecture)
    } else if s == seq!['a', 'h'] {
        Err(TokenizingError::HighByte)
    } else if s == seq!['a', 'l'] {
        Ok(Operand::Accumulator)
    } else if s.len() >= 2 && s[0] == '[' && s.last() == ']' {
        match primitive_text(s.subrange(1, s.len() - 1)) {
            Ok(Operand::Number(n)) => Ok(Operand::Memory(n as u16)),
            Ok(Operand::Register(r)) => Ok(Operand::DynamicMemory(r)),
            Ok(Operand::Accumulator) => Ok(Operand::DynamicMemoryAccumulator),
            _ => Err(TokenizingError::BadMemory),
        }
    } else {
        match port_text(s) {
            Ok(p) => Ok(Operand::Port(p)),
            Err(TokenizingError::BadPort) => Err(TokenizingError::BadPort),
            Err(_) => match register_text(s) {
                Ok(r) => Ok(Operand::Register(r)),
                Err(TokenizingError::UnknownToken) => if is_label_text(s) {
                    Ok(Operand::Label(s))
                } else {
                    Err(TokenizingError::BadLabel)
                },
                Err(e) => Err(e),
            },
        }
    }
}

/// Copies `s[lo..hi]`.
fn copy_range(s: &[char], lo: usize, hi: usize) -> (r: Vec<char>)
    requires
        lo <= hi <= s@.len(),
    ensures
        r@ == s@.subrange(lo as int, hi as int),
{
    let mut r: Vec<char> = Vec::new();
    let mut i: usize = lo;
    while i < hi
        invariant
            lo <= i <= hi <= s@.len(),
            r@ == s@.subrange(lo as int, i as int),
        decreases hi - i,
    {
        r.push(s[i]);
        i += 1;
        assert(r@ =~= s@.subrange(lo as int, i as int));
    }
    r
}

/// Relies on `String::push`: the character is appended at the end.
#[verifier::external_body]
pub(crate) fn push_char(s: &mut String, c: char)
    ensures
        final(s)@ == old(s)@.push(c),
{
    s.push(c);
}

/// A `String` holding the characters of `s`.
pub fn string_of(s: &[char]) -> (r: String)
    ensures
        r@ == s@,
{
    let mut r = String::new();
    let mut i: usize = 0;
    while i < s.len()
        invariant
            i <= s@.len(),
            r@ == s@.subrange(0, i as int),
        decreases s@.len() - i,
    {
        push_char(&mut r, s[i]);
        i += 1;
        assert(r@ =~= s@.subrange(0, i as int));
    }
    assert(r@ =~= s@);
    r
}

pub open spec fn view_result<T: View, E>(r: Result<T, E>) -> Result<T::V, E> {
    match r {
        Ok(v) => Ok(v@),
        Err(e) => Err(e),
    }
}

impl Primitive {
    /// Reads an operand.
    pub fn parse(s: &[char]) -> (r: Result<Primitive, TokenizingError>)
        ensures
            view_result(r) == primitive_text(s@),
        decreases s@.len(),
    {
        let n = s.len();
        if n > 0 && (('0' <= s[0] && s[0] <= '9') || s[0] == '+' || s[0] == '-') {
            match try_to_number(s) {
                Some(num) => Ok(Primitive::Number(num)),
                None => Err(TokenizingError::BadNumber),
            }
        } else if n == 3 && ((s[0] == '"' && s[2] == '"') || (s[0] == '\'' && s[2] == '\''))
            && (s[1] as u32) < 128 {
            Ok(Primitive::Number((s[1] as u32) as u8))
        } else if is_word(s, &['r', 'a', 'x']) || is_word(s, &['e', 'a', 'x']) || is_word(
            s,
            &['a', 'x'],
        ) {
            Err(TokenizingError::BadArchitecture)
        } else if is_word(s, &['a', 'h']) {
            Err(TokenizingError::HighByte)
        } else if is_word(s, &['a', 'l']) {
            Ok(Primitive::Accumulator)
        } else if n >= 2 && s[0] == '[' && s[n - 1] == ']' {
            let inner = copy_range(s, 1, n - 1);
            match Primitive::parse(inner.as_slice()) {
                Ok(Primitive::Number(byte)) => Ok(Primitive::Memory(byte as u16)),
                Ok(Primitive::Register(reg)) => Ok(Primitive::DynamicMemory(reg)),
                Ok(Primitive::Accumulator) => Ok(Primitive::DynamicMemoryAccumulator),
                _ => Err(TokenizingError::BadMemory),
            }
        } else {
            match Port::parse(s) {
                Ok(port) => Ok(Primitive::Port(port)),
                Err(TokenizingError::BadPort) => Err(TokenizingError::BadPort),
                _ => match Register::parse(s) {
                    Ok(reg) => Ok(Primitive::Register(reg)),
                    Err(TokenizingError::UnknownToken) => if Primitive::is_label(s) {
                        Ok(Primitive::Label(string_of(s)))
                    } else {
                        Err(TokenizingError::BadLabel)
                    },
                    Err(err) => Err(err),
                },
            }
        }
    }
}

/// The end of a source line, in the stream of tokens.
pub struct EOL;

/// What kind of word a token is.
#[derive(Debug)]
pub enum TokenKind {
    /// A label definition: the text `name:`, colon included.
    Label(String),
    Mnemonic(Mnemonic),
    Operand(Primitive),
    Comma,
    /// A word that could not be classified.
    Error,
}

/// What a `TokenKind` denotes, with names seen as their characters.
pub enum Lexeme {
    Label(Seq<char>),
    Mnemonic(Mnemonic),
    Operand(Operand),
    Comma,
    Error,
}

impl View for TokenKind {
    type V = Lexeme;

    open spec fn view(&self) -> Lexeme {
        match self {
            TokenKind::Label(s) => Lexeme::Label(s@),
            TokenKind::Mnemonic(m) => Lexeme::Mnemonic(*m),
            TokenKind::Operand(p) => Lexeme::Operand(p@),
            TokenKind::Comma => Lexeme::Comma,
            TokenKind::Error => Lexeme::Error,
        }
    }
}

impl Clone for TokenKind {
    fn clone(&self) -> (r: Self)
        ensures
            r == *self,
    {
        match self {
            TokenKind::Label(s) => TokenKind::Label(s.clone()),
            TokenKind::Mnemonic(m) => TokenKind::Mnemonic(*m),
            TokenKind::Operand(p) => TokenKind::Operand(p.clone()),
            TokenKind::Comma => TokenKind::Comma,
            TokenKind::Error => TokenKind::Error,
        }
    }
}

/// How a word is classified: a comma, a label definition, a mnemonic, or
/// else an operand.
#[verifier::opaque]
pub open spec fn token_kind_text(s: Seq<char>) -> Result<Lexeme, TokenizingError> {
    if s == seq![','] {
        Ok(Lexeme::Comma)
    } else if s.len() > 0 && s.last() == ':' {
        if is_label_text(s.drop_last()) {
            Ok(Lexeme::Label(s))
        } else {
            Err(TokenizingError::BadLabel)
        }
    } else {
        match mnemonic_text(s) {
            Some(m) => Ok(Lexeme::Mnemonic(m)),
            None => match primitive_text(s) {
                Ok(p) => Ok(Lexeme::Operand(p)),
                Err(e) => Err(e),
            },
        }
    }
}

impl TokenKind {
    /// Classifies a word.
    pub fn parse(s: &[char]) -> (r: Result<TokenKind, TokenizingError>)
        ensures
            view_result(r) == token_kind_text(s@),
    {
        reveal(token_kind_text);
        let n = s.len();
        let comma: &[char] = &[','];
        assert(comma@ == seq![',']);
        if is_word(s, comma) {
            Ok(TokenKind::Comma)
        } else if n > 0 && s[n - 1] == ':' {
            let name = copy_range(s, 0, n - 1);
            assert(name@ == s@.drop_last());
            if Primitive::is_label(name.as_slice()) {
                Ok(TokenKind::Label(string_of(s)))
            } else {
                Err(TokenizingError::BadLabel)
            }
        } else {
            match Mnemonic::parse(s) {
                Some(mnemonic) => Ok(TokenKind::Mnemonic(mnemonic)),
                None => match Primitive::parse(s) {
                    Ok(p) => {
                        assert(primitive_text(s@) == Ok::<Operand, TokenizingError>(p@));
                        Ok(TokenKind::Operand(p))
                    },
                    Err(e) => Err(e),
                },
            }
        }
    }
}

/// A classified word, with its span of columns `[start, end)` in its line and
/// the line's number, counted from 1.
#[derive(Debug)]
pub struct Token {
    pub kind: TokenKind,
    pub span: std::ops::Range<usize>,
    pub line: usize,
}

impl Clone for Token {
    fn clone(&self) -> (r: Self)
        ensures
            r == *self,
    {
        Token {
            kind: self.kind.clone(),
            span: std::ops::Range { start: self.span.start, end: self.span.end },
            line: self.line,
        }
    }
}

/// What a `Token` denotes.
pub struct TokenView {
    pub kind: Lexeme,
    pub start: nat,
    pub end: nat,
    pub line: nat,
}

impl View for Token {
    type V = TokenView;

    open spec fn view(&self) -> TokenView {
        TokenView {
            kind: self.kind@,
            start: self.span.start as nat,
            end: self.span.end as nat,
            line: self.line as nat,
        }
    }
}

/// An item of the token stream: a token, or `None` for an end of line.
pub open spec fn item_view(item: Result<Token, EOL>) -> Option<TokenView> {
    match item {
        Ok(t) => Some(t@),
        Err(_) => None,
    }
}

pub open spec fn items_view(items: Seq<Result<Token, EOL>>) -> Seq<Option<TokenView>> {
    items.map_values(|i: Result<Token, EOL>| item_view(i))
}

/// Relies on `str::chars`: the characters of the string, in order.
#[verifier::external_body]
pub(crate) fn chars_of(s: &str) -> (r: Vec<char>)
    ensures
        r@ == s@,
{
    s.chars().collect()
}

impl std::str::FromStr for TokenKind {
    type Err = TokenizingError;

    fn from_str(src: &str) -> Result<Self, Self::Err> {
        TokenKind::parse(chars_of(src).as_slice())
    }
}

impl std::str::FromStr for Primitive {
    type Err = TokenizingError;

    fn from_str(src: &str) -> Result<Self, Self::Err> {
        Primitive::parse(chars_of(src).as_slice())
    }
}

impl std::str::FromStr for Port {
    type Err = TokenizingError;

    fn from_str(src: &str) -> Result<Self, Self::Err> {
        Port::parse(chars_of(src).as_slice())
    }
}

impl std::str::FromStr for Register {
    type Err = TokenizingError;

    fn from_str(src: &str) -> Result<Self, Self::Err> {
        Register::parse(chars_of(src).as_slice())
    }
}

impl std::str::FromStr for Mnemonic {
    type Err = ();

    fn from_str(src: &str) -> Result<Self, Self::Err> {
        match Mnemonic::parse(chars_of(src).as_slice()) {
            Some(m) => Ok(m),
            None => Err(()),
        }
    }
}

impl Token {
    /// Classifies the word `src` found at `span` of line `line` and sends its
    /// token down `channel`; an empty word sends nothing. A word that cannot
    /// be classified is handed back as an error token with the reason.
    pub fn try_send(
        src: &[char],
        span: std::ops::Range<usize>,
        line: usize,
        channel: &mut Vec<Result<Token, EOL>>,
    ) -> (r: Result<(), (Token, TokenizingError)>)
        ensures
            src@.len() == 0 ==> r is Ok && final(channel)@ == old(channel)@,
            src@.len() > 0 ==> match token_kind_text(src@) {
                Ok(k) => r is Ok && items_view(final(channel)@) == items_view(old(channel)@).push(
                    Some(TokenView { kind: k, start: span.start as nat, end: span.end as nat, line: line as nat }),
                ),
                Err(e) => r matches Err((t, e2)) && e2 == e && t@ == (TokenView {
                    kind: Lexeme::Error,
                    start: span.start as nat,
                    end: span.end as nat,
                    line: line as nat,
                }) && final(channel)@ == old(channel)@,
            },
    {
        if src.len() == 0 {
            return Ok(());
        }
        match TokenKind::parse(src) {
            Ok(kind) => {
                let ghost before = items_view(channel@);
                let token = Token { kind, span, line };
                channel.push(Ok(token));
                assert(items_view(channel@) =~= before.push(Some(token@)));
                Ok(())
            },
            Err(err) => Err((Token { kind: TokenKind::Error, span, line }, err)),
        }
    }
}

/// The name that a label definition declares: its text without the colon.
pub open spec fn label_name(text: Seq<char>) -> Seq<char> {
    if text.len() > 0 && text.last() == ':' {
        text.drop_last()
    } else {
        text
    }
}

/// The name that a label definition declares.
pub fn label_name_of(text: &String) -> (r: String)
    ensures
        r@ == label_name(text@),
{
    let chars = chars_of(text.as_str());
    let n = chars.len();
    if n > 0 && chars[n - 1] == ':' {
        let name = copy_range(chars.as_slice(), 0, n - 1);
        assert(name@ =~= text@.drop_last());
        string_of(name.as_slice())
    } else {
        string_of(chars.as_slice())
    }
}

} // verus!
