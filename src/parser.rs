//! The two passes of the assembler: the first checks each statement, encodes
//! it and records where each label stands; the second puts the addresses of
//! labels in the slots reserved for them.
use vstd::arithmetic::div_mod::lemma_add_mod_noop;
use vstd::prelude::*;

use crate::error::{AssemblyError, ErrorCode, Fault};
use crate::instruction::{
    data_flow, encodable, mnemonic_page, with_flow, with_mnemonic, word_bytes, Instruction,
};
use crate::token::{
    label_name, label_name_of,    arity, items_view, Lexeme, Mnemonic, Operand, Primitive, Token, TokenKind, TokenView,
    TokenizingError, EOL,
};

verus! {

/// A cell of the first pass's output: a finished byte, or a slot of two bytes
/// for the address of a label.
pub enum ByteCode {
    Byte(u8),
    Addr(Token, String),
}

/// What a `ByteCode` denotes.
pub enum Cell {
    Byte(u8),
    Addr(TokenView, Seq<char>),
}

impl View for ByteCode {
    type V = Cell;

    open spec fn view(&self) -> Cell {
        match self {
            ByteCode::Byte(b) => Cell::Byte(*b),
            ByteCode::Addr(t, s) => Cell::Addr(t@, s@),
        }
    }
}

pub open spec fn cells_view(cs: Seq<ByteCode>) -> Seq<Cell> {
    cs.map_values(|c: ByteCode| c@)
}

pub open spec fn labels_view(ls: Seq<(String, u16)>) -> Seq<(Seq<char>, u16)> {
    ls.map_values(|l: (String, u16)| (l.0@, l.1))
}

pub open spec fn tokens_view(ts: Seq<Token>) -> Seq<TokenView> {
    ts.map_values(|t: Token| t@)
}

/// The number of bytes that cells stand for: an address slot counts two.
pub open spec fn code_size(code: Seq<Cell>) -> nat
    decreases code.len(),
{
    if code.len() == 0 {
        0
    } else {
        code_size(code.drop_last()) + match code.last() {
            Cell::Byte(_) => 1nat,
            Cell::Addr(_, _) => 2nat,
        }
    }
}

/// The 16-bit address of the byte after `code`.
pub open spec fn offset(code: Seq<Cell>) -> u16 {
    (code_size(code) % 65536) as u16
}

/// The address recorded for a label, if any.
pub open spec fn lookup(labels: Seq<(Seq<char>, u16)>, name: Seq<char>) -> Option<u16>
    decreases labels.len(),
{
    if labels.len() == 0 {
        None
    } else if labels[0].0 == name {
        Some(labels[0].1)
    } else {
        lookup(labels.skip(1), name)
    }
}

/// No name appears twice in a label table.
pub open spec fn unique_names(labels: Seq<(Seq<char>, u16)>) -> bool {
    forall|i: int, j: int|
        0 <= i < labels.len() && 0 <= j < labels.len() && i != j ==> (#[trigger] labels[i]).0
            != (#[trigger] labels[j]).0
}

proof fn lemma_lookup_none(labels: Seq<(Seq<char>, u16)>, name: Seq<char>)
    requires
        lookup(labels, name) is None,
    ensures
        forall|i: int| 0 <= i < labels.len() ==> (#[trigger] labels[i]).0 != name,
    decreases labels.len(),
{
    if labels.len() > 0 {
        lemma_lookup_none(labels.skip(1), name);
        assert forall|i: int| 0 <= i < labels.len() implies (#[trigger] labels[i]).0 != name by {
            if i > 0 {
                assert(labels[i] == labels.skip(1)[i - 1]);
            }
        }
    }
}

/// What the first pass has built: the cells and the label table.
pub struct Pass {
    pub code: Seq<Cell>,
    pub labels: Seq<(Seq<char>, u16)>,
}

/// The state of the first pass within a statement.
pub struct LineState {
    pub req: usize,
    pub ops: Seq<(TokenView, Operand)>,
    pub mnem: Option<(TokenView, Mnemonic)>,
    pub labels: Seq<(Seq<char>, u16)>,
}

/// The first pass's step on one token of a statement. Label definitions take
/// the address `here`; a comma needs an operand before it and fewer operands
/// than the mnemonic takes; a third operand is one too many.
pub open spec fn step(s: LineState, t: TokenView, here: u16) -> Result<LineState, (TokenView, Fault)> {
    match t.kind {
        Lexeme::Label(text) => if lookup(s.labels, label_name(text)) is Some {
            Err((t, Fault::RedefinedLabel))
        } else {
            Ok(LineState { labels: s.labels.push((label_name(text), here)), ..s })
        },
        Lexeme::Mnemonic(m) => if s.mnem is Some {
            Err((t, Fault::MultipleMnemonics))
        } else {
            Ok(LineState { req: arity(m) as usize, mnem: Some((t, m)), ..s })
        },
        Lexeme::Operand(p) => if s.ops.len() >= 2 {
            match s.mnem {
                Some((mt, _)) => Err((mt, Fault::ExcessiveOperands(s.req))),
                None => Err((t, Fault::NoMnemonic)),
            }
        } else {
            Ok(LineState { ops: s.ops.push((t, p)), ..s })
        },
        Lexeme::Comma => match s.mnem {
            None => Err((t, Fault::NoMnemonic)),
            Some((mt, _)) => if s.ops.len() >= s.req {
                Err((mt, Fault::ExcessiveOperands(s.req)))
            } else if s.ops.len() == 0 {
                Err((t, Fault::UnexpectedComma))
            } else {
                Ok(s)
            },
        },
        Lexeme::Error => Err((t, Fault::Token(TokenizingError::UnknownToken))),
    }
}

/// The state after the tokens `ts` of a statement.
pub open spec fn line_state(ts: Seq<TokenView>, labels: Seq<(Seq<char>, u16)>, here: u16) -> Result<
    LineState,
    (TokenView, Fault),
>
    decreases ts.len(),
{
    if ts.len() == 0 {
        Ok(LineState { req: 0, ops: seq![], mnem: None, labels })
    } else {
        match line_state(ts.drop_last(), labels, here) {
            Ok(s) => step(s, ts.last(), here),
            Err(e) => Err(e),
        }
    }
}

pub open spec fn byte_cells(bytes: Seq<u8>) -> Seq<Cell> {
    bytes.map_values(|b: u8| Cell::Byte(b))
}

/// The instruction that a mnemonic alone encodes.
pub open spec fn mnemonic_instruction(m: Mnemonic) -> Instruction {
    Instruction { decoder_page: mnemonic_page(m), main: with_mnemonic(0, m), rom: None, ram: None }
}

/// The cells that a checked statement appends to `code`. With two operands,
/// the first is the destination and the second the origin.
pub open spec fn emit(s: LineState, code: Seq<Cell>) -> Result<Seq<Cell>, (TokenView, Fault)> {
    match s.mnem {
        None => Ok(code),
        Some((mt, m)) => if s.ops.len() != s.req {
            Err((mt, Fault::NotEnoughOperands(s.ops.len() as usize, s.req)))
        } else {
            let inst = mnemonic_instruction(m);
            if s.ops.len() == 2 {
                let (dt, d) = s.ops[0];
                let (ot, o) = s.ops[1];
                if !encodable(o) {
                    Err((ot, Fault::Token(TokenizingError::BadPort)))
                } else if !encodable(d) {
                    Err((dt, Fault::Token(TokenizingError::BadPort)))
                } else {
                    match data_flow(o, d) {
                        Ok(f) => Ok(code + byte_cells(with_flow(inst, f).bytes())),
                        Err(Fault::BadOrigin) => Err((ot, Fault::BadOrigin)),
                        Err(_) => Err((dt, Fault::BadDestination)),
                    }
                }
            } else if s.ops.len() == 1 {
                match s.ops[0].1 {
                    Operand::Label(name) => Ok(
                        code + byte_cells(inst.bytes()) + seq![Cell::Addr(s.ops[0].0, name)],
                    ),
                    _ => Err((mt, Fault::NoLabel)),
                }
            } else {
                Ok(code + byte_cells(inst.bytes()))
            }
        },
    }
}

/// The first pass over one statement.
pub open spec fn translate_line(ts: Seq<TokenView>, p: Pass) -> Result<Pass, (TokenView, Fault)> {
    match line_state(ts, p.labels, offset(p.code)) {
        Ok(s) => match emit(s, p.code) {
            Ok(code) => Ok(Pass { code, labels: s.labels }),
            Err(e) => Err(e),
        },
        Err(e) => Err(e),
    }
}

/// The first pass over a token stream: the tokens are gathered up to each end
/// of line and then translated; tokens after the last end of line are left
/// out.
pub open spec fn first_pass(items: Seq<Option<TokenView>>) -> Result<
    (Pass, Seq<TokenView>),
    (TokenView, Fault),
>
    decreases items.len(),
{
    if items.len() == 0 {
        Ok((Pass { code: seq![], labels: seq![] }, seq![]))
    } else {
        match first_pass(items.drop_last()) {
            Ok((p, buf)) => match items.last() {
                Some(t) => Ok((p, buf.push(t))),
                None => match translate_line(buf, p) {
                    Ok(next) => Ok((next, seq![])),
                    Err(e) => Err(e),
                },
            },
            Err(e) => Err(e),
        }
    }
}

/// The second pass: each address slot becomes the address of its label, high
/// byte first.
pub open spec fn resolve(code: Seq<Cell>, labels: Seq<(Seq<char>, u16)>) -> Result<
    Seq<u8>,
    (TokenView, Fault),
>
    decreases code.len(),
{
    if code.len() == 0 {
        Ok(seq![])
    } else {
        match resolve(code.drop_last(), labels) {
            Ok(bytes) => match code.last() {
                Cell::Byte(b) => Ok(bytes.push(b)),
                Cell::Addr(t, name) => match lookup(labels, name) {
                    Some(w) => Ok(bytes + word_bytes(w)),
                    None => Err((t, Fault::UnknownLabel(name))),
                },
            },
            Err(e) => Err(e),
        }
    }
}

/// Both passes over a token stream.
pub open spec fn assemble_items(items: Seq<Option<TokenView>>) -> Result<Seq<u8>, (TokenView, Fault)> {
    match first_pass(items) {
        Ok((p, _)) => resolve(p.code, p.labels),
        Err(e) => Err(e),
    }
}

/// Whether an error is `e`.
pub open spec fn is_error(r: AssemblyError, e: (TokenView, Fault)) -> bool {
    r.token@ == e.0 && r.code@ == e.1
}

fn find_label(labels: &Vec<(String, u16)>, name: &String) -> (r: Option<u16>)
    ensures
        r == lookup(labels_view(labels@), name@),
{
    let ghost lv = labels_view(labels@);
    let mut i: usize = 0;
    assert(lv.skip(0) =~= lv);
    while i < labels.len()
        invariant
            i <= labels@.len(),
            lv == labels_view(labels@),
            lookup(lv, name@) == lookup(lv.skip(i as int), name@),
        decreases labels@.len() - i,
    {
        assert(lv.skip(i as int).skip(1) =~= lv.skip(i + 1));
        assert(lv.skip(i as int)[0] == lv[i as int]);
        if labels[i].0 == *name {
            return Some(labels[i].1);
        }
        i += 1;
    }
    assert(lv.skip(i as int).len() == 0);
    None
}

proof fn lemma_resolve_stop(code: Seq<Cell>, labels: Seq<(Seq<char>, u16)>, k: int)
    requires
        0 <= k <= code.len(),
        resolve(code.take(k), labels) is Err,
    ensures
        resolve(code, labels) == resolve(code.take(k), labels),
    decreases code.len(),
{
    if k < code.len() {
        assert(code.drop_last().take(k) =~= code.take(k));
        lemma_resolve_stop(code.drop_last(), labels, k);
    } else {
        assert(code.take(k) =~= code);
    }
}

/// The second pass.
pub fn fill_addresses(byte_code: Vec<ByteCode>, labels: &Vec<(String, u16)>) -> (r: Result<
    Vec<u8>,
    AssemblyError,
>)
    ensures
        match resolve(cells_view(byte_code@), labels_view(labels@)) {
            Ok(bytes) => r matches Ok(v) && v@ == bytes,
            Err(e) => r matches Err(a) && is_error(a, e),
        },
{
    let ghost cs = cells_view(byte_code@);
    let ghost lv = labels_view(labels@);
    let mut out: Vec<u8> = Vec::new();
    let mut i: usize = 0;
    while i < byte_code.len()
        invariant
            i <= byte_code@.len(),
            cs == cells_view(byte_code@),
            lv == labels_view(labels@),
            resolve(cs.take(i as int), lv) == Ok::<Seq<u8>, (TokenView, Fault)>(out@),
        decreases byte_code@.len() - i,
    {
        assert(cs.take(i + 1).drop_last() =~= cs.take(i as int));
        assert(cs.take(i + 1).last() == byte_code@[i as int]@);
        match &byte_code[i] {
            ByteCode::Byte(b) => {
                out.push(*b);
            },
            ByteCode::Addr(token, label) => {
                match find_label(labels, label) {
                    Some(word) => {
                        let ghost before = out@;
                        out.push((word / 256) as u8);
                        out.push((word % 256) as u8);
                        assert(out@ =~= before + word_bytes(word));
                    },
                    None => {
                        proof {
                            lemma_resolve_stop(cs, lv, i + 1);
                        }
                        return Err(
                            AssemblyError::new(token.clone(), ErrorCode::UnknownLabel(label.clone())),
                        );
                    },
                }
            },
        }
        i += 1;
    }
    assert(cs.take(i as int) =~= cs);
    Ok(out)
}

/// The first pass's output so far, and the address of the next byte.
pub struct Program {
    pub byte_code: Vec<ByteCode>,
    pub labels: Vec<(String, u16)>,
    pub here: u16,
}

impl View for Program {
    type V = Pass;

    open spec fn view(&self) -> Pass {
        Pass { code: cells_view(self.byte_code@), labels: labels_view(self.labels@) }
    }
}

impl Program {
    /// The address is that of the next byte, and no name is defined twice.
    pub open spec fn wf(&self) -> bool {
        &&& self.here == offset(cells_view(self.byte_code@))
        &&& unique_names(labels_view(self.labels@))
    }

    pub fn new() -> (r: Program)
        ensures
            r@ == (Pass { code: seq![], labels: seq![] }),
            r.wf(),
    {
        let r = Program { byte_code: Vec::new(), labels: Vec::new(), here: 0 };
        assert(cells_view(r.byte_code@) =~= seq![]);
        assert(labels_view(r.labels@) =~= seq![]);
        r
    }

    /// Appends one cell, moving the address on by its size.
    fn push_cell(&mut self, cell: ByteCode)
        requires
            old(self).wf(),
        ensures
            final(self).wf(),
            cells_view(final(self).byte_code@) == cells_view(old(self).byte_code@).push(cell@),
            final(self).labels == old(self).labels,
    {
        let ghost before = cells_view(self.byte_code@);
        let size: u16 = match cell {
            ByteCode::Byte(_) => 1,
            ByteCode::Addr(_, _) => 2,
        };
        self.byte_code.push(cell);
        let ghost after = cells_view(self.byte_code@);
        assert(after =~= before.push(cell@));
        assert(after.drop_last() =~= before);
        proof {
            lemma_add_mod_noop(code_size(before) as int, size as int, 65536);
        }
        self.here = ((self.here as u32 + size as u32) % 65536) as u16;
    }

    fn push_bytes(&mut self, bytes: &Vec<u8>)
        requires
            old(self).wf(),
        ensures
            final(self).wf(),
            cells_view(final(self).byte_code@) == cells_view(old(self).byte_code@) + byte_cells(
                bytes@,
            ),
            final(self).labels == old(self).labels,
    {
        let ghost start = cells_view(self.byte_code@);
        let mut i: usize = 0;
        while i < bytes.len()
            invariant
                i <= bytes@.len(),
                self.wf(),
                cells_view(self.byte_code@) == start + byte_cells(bytes@.take(i as int)),
                self.labels == old(self).labels,
            decreases bytes@.len() - i,
        {
            self.push_cell(ByteCode::Byte(bytes[i]));
            i += 1;
            assert(byte_cells(bytes@.take(i as int)) =~= byte_cells(bytes@.take(i - 1)).push(
                Cell::Byte(bytes@[i - 1]),
            ));
            assert(cells_view(self.byte_code@) =~= start + byte_cells(bytes@.take(i as int)));
        }
        assert(bytes@.take(i as int) =~= bytes@);
    }
}

pub open spec fn ops_view(ops: Seq<(Token, Primitive)>) -> Seq<(TokenView, Operand)> {
    ops.map_values(|o: (Token, Primitive)| (o.0@, o.1@))
}

pub open spec fn mnem_view(m: Option<(Token, Mnemonic)>) -> Option<(TokenView, Mnemonic)> {
    match m {
        Some((t, m)) => Some((t@, m)),
        None => None,
    }
}

proof fn lemma_line_state_stop(
    ts: Seq<TokenView>,
    labels: Seq<(Seq<char>, u16)>,
    here: u16,
    k: int,
)
    requires
        0 <= k <= ts.len(),
        line_state(ts.take(k), labels, here) is Err,
    ensures
        line_state(ts, labels, here) == line_state(ts.take(k), labels, here),
    decreases ts.len(),
{
    if k < ts.len() {
        assert(ts.drop_last().take(k) =~= ts.take(k));
        lemma_line_state_stop(ts.drop_last(), labels, here, k);
    } else {
        assert(ts.take(k) =~= ts);
    }
}

fn fail(token: &Token, code: ErrorCode) -> (r: AssemblyError)
    ensures
        r.token@ == token@,
        r.code == code,
{
    AssemblyError::new(token.clone(), code)
}

fn translate_statement(buffer: &Vec<Token>, prog: &mut Program) -> (r: Result<(), AssemblyError>)
    requires
        old(prog).wf(),
    ensures
        match translate_line(tokens_view(buffer@), old(prog)@) {
            Ok(p) => r is Ok && final(prog)@ == p && final(prog).wf(),
            Err(e) => r matches Err(a) && is_error(a, e),
        },
        r is Err ==> {
            &&& final(prog).byte_code@ == old(prog).byte_code@
            &&& final(prog).here == old(prog).here
            &&& old(prog).labels@.len() <= final(prog).labels@.len()
            &&& final(prog).labels@.take(old(prog).labels@.len() as int) == old(prog).labels@
        },
{
    let len0 = prog.labels.len();
    assert(prog.labels@.take(len0 as int) =~= old(prog).labels@);
    let ghost ts = tokens_view(buffer@);
    let ghost labels0 = labels_view(prog.labels@);
    let ghost code0 = cells_view(prog.byte_code@);
    let here = prog.here;
    let mut req: usize = 0;
    let mut ops: Vec<(Token, Primitive)> = Vec::new();
    let mut mnem: Option<(Token, Mnemonic)> = None;
    assert(ts.take(0) =~= seq![]);
    assert(ops_view(ops@) =~= seq![]);
    let mut i: usize = 0;
    while i < buffer.len()
        invariant
            i <= buffer@.len(),
            ts == tokens_view(buffer@),
            here == offset(code0),
            old(prog)@ == (Pass { code: code0, labels: labels0 }),
            prog.wf(),
            prog.byte_code@ == old(prog).byte_code@,
            prog.here == old(prog).here,
            len0 == old(prog).labels@.len(),
            len0 <= prog.labels@.len(),
            prog.labels@.take(len0 as int) == old(prog).labels@,
            cells_view(prog.byte_code@) == code0,
            line_state(ts.take(i as int), labels0, here) == Ok::<LineState, (TokenView, Fault)>(
                LineState {
                    req,
                    ops: ops_view(ops@),
                    mnem: mnem_view(mnem),
                    labels: labels_view(prog.labels@),
                },
            ),
        decreases buffer@.len() - i,
    {
        let ghost prev = LineState {
            req,
            ops: ops_view(ops@),
            mnem: mnem_view(mnem),
            labels: labels_view(prog.labels@),
        };
        assert(ts.take(i + 1).drop_last() =~= ts.take(i as int));
        assert(ts.take(i + 1).last() == buffer@[i as int]@);
        let token = &buffer[i];
        let res: Result<(), AssemblyError> = match &token.kind {
            TokenKind::Label(text) => {
                let name = label_name_of(text);
                if find_label(&prog.labels, &name).is_some() {
                    Err(fail(token, ErrorCode::RedefinedLabel))
                } else {
                    let ghost lv = labels_view(prog.labels@);
                    proof {
                        lemma_lookup_none(lv, name@);
                    }
                    prog.labels.push((name, here));
                    assert(labels_view(prog.labels@) =~= lv.push((name@, here)));
                    assert(prog.labels@.take(len0 as int) =~= old(prog).labels@);
                    Ok(())
                }
            },
            TokenKind::Mnemonic(m) => {
                if mnem.is_some() {
                    Err(fail(token, ErrorCode::MultipleMnemonics))
                } else {
                    req = m.operands_required();
                    mnem = Some((token.clone(), *m));
                    Ok(())
                }
            },
            TokenKind::Operand(p) => {
                if ops.len() >= 2 {
                    match &mnem {
                        Some((mt, _)) => Err(fail(mt, ErrorCode::ExcessiveOperands(req))),
                        None => Err(fail(token, ErrorCode::NoMnemonic)),
                    }
                } else {
                    let ghost ov = ops_view(ops@);
                    ops.push((token.clone(), p.clone()));
                    assert(ops_view(ops@) =~= ov.push((token@, p@)));
                    Ok(())
                }
            },
            TokenKind::Comma => match &mnem {
                None => Err(fail(token, ErrorCode::NoMnemonic)),
                Some((mt, _)) => {
                    if ops.len() >= req {
                        Err(fail(mt, ErrorCode::ExcessiveOperands(req)))
                    } else if ops.len() == 0 {
                        Err(fail(token, ErrorCode::UnexpectedComma))
                    } else {
                        Ok(())
                    }
                },
            },
            TokenKind::Error => Err(fail(token, ErrorCode::Token(TokenizingError::UnknownToken))),
        };
        match res {
            Ok(()) => {},
            Err(a) => {
                assert(step(prev, token@, here) matches Err(e) && is_error(a, e));
                proof {
                    lemma_line_state_stop(ts, labels0, here, i + 1);
                    assert(ts =~= tokens_view(buffer@));
                }
                return Err(a);
            },
        }
        i += 1;
    }
    assert(ts.take(i as int) =~= ts);
    let ghost st = LineState {
        req,
        ops: ops_view(ops@),
        mnem: mnem_view(mnem),
        labels: labels_view(prog.labels@),
    };
    assert(line_state(ts, labels0, here) == Ok::<LineState, (TokenView, Fault)>(st));
    let (mt, m) = match mnem {
        None => return Ok(()),
        Some(pair) => pair,
    };
    if ops.len() != req {
        return Err(fail(&mt, ErrorCode::NotEnoughOperands(ops.len(), req)));
    }
    let inst = Instruction::new().encode_mnemonic(m);
    assert(inst == mnemonic_instruction(m));
    if ops.len() == 2 {
        let dest = &ops[0];
        let origin = &ops[1];
        if let Primitive::Port(port) = &origin.1 {
            if port.port_number() > 3 {
                return Err(fail(&origin.0, ErrorCode::Token(TokenizingError::BadPort)));
            }
        }
        if let Primitive::Port(port) = &dest.1 {
            if port.port_number() > 3 {
                return Err(fail(&dest.0, ErrorCode::Token(TokenizingError::BadPort)));
            }
        }
        assert(st.ops[0] == (dest.0@, dest.1@));
        assert(st.ops[1] == (origin.0@, origin.1@));
        match inst.try_encode_data_flow(&origin.1, &dest.1) {
            Ok(encoded) => {
                let bytes = encoded.as_bytes();
                prog.push_bytes(&bytes);
                assert(emit(st, code0) == Ok::<Seq<Cell>, (TokenView, Fault)>(
                    cells_view(prog.byte_code@),
                ));
                Ok(())
            },
            Err(ErrorCode::BadOrigin) => Err(fail(&origin.0, ErrorCode::BadOrigin)),
            Err(_) => Err(fail(&dest.0, ErrorCode::BadDestination)),
        }
    } else if ops.len() == 1 {
        match &ops[0].1 {
            Primitive::Label(name) => {
                assert(st.ops[0] == (ops[0].0@, ops[0].1@));
                let bytes = inst.as_bytes();
                prog.push_bytes(&bytes);
                prog.push_cell(ByteCode::Addr(ops[0].0.clone(), name.clone()));
                assert(cells_view(prog.byte_code@) =~= code0 + byte_cells(inst.bytes()) + seq![
                    Cell::Addr(st.ops[0].0, name@),
                ]);
                Ok(())
            },
            _ => {
                assert(st.ops[0] == (ops[0].0@, ops[0].1@));
                Err(fail(&mt, ErrorCode::NoLabel))
            },
        }
    } else {
        let bytes = inst.as_bytes();
        prog.push_bytes(&bytes);
        Ok(())
    }
}

proof fn lemma_first_pass_stop(items: Seq<Option<TokenView>>, k: int)
    requires
        0 <= k <= items.len(),
        first_pass(items.take(k)) is Err,
    ensures
        first_pass(items) == first_pass(items.take(k)),
    decreases items.len(),
{
    if k < items.len() {
        assert(items.drop_last().take(k) =~= items.take(k));
        lemma_first_pass_stop(items.drop_last(), k);
    } else {
        assert(items.take(k) =~= items);
    }
}

/// Both passes over a stream of tokens and end-of-line markers.
pub fn eval(receiver: Vec<Result<Token, EOL>>) -> (r: Result<Vec<u8>, AssemblyError>)
    ensures
        match assemble_items(items_view(receiver@)) {
            Ok(bytes) => r matches Ok(v) && v@ == bytes,
            Err(e) => r matches Err(a) && is_error(a, e),
        },
{
    let ghost items = items_view(receiver@);
    let mut prog = Program::new();
    let mut buffer: Vec<Token> = Vec::new();
    let mut i: usize = 0;
    assert(items.take(0) =~= seq![]);
    assert(tokens_view(buffer@) =~= seq![]);
    while i < receiver.len()
        invariant
            i <= receiver@.len(),
            items == items_view(receiver@),
            prog.wf(),
            first_pass(items.take(i as int)) == Ok::<(Pass, Seq<TokenView>), (TokenView, Fault)>(
                (prog@, tokens_view(buffer@)),
            ),
        decreases receiver@.len() - i,
    {
        assert(items.take(i + 1).drop_last() =~= items.take(i as int));
        assert(items.take(i + 1).last() == items_view(receiver@)[i as int]);
        match &receiver[i] {
            Ok(token) => {
                let ghost bv = tokens_view(buffer@);
                buffer.push(token.clone());
                assert(tokens_view(buffer@) =~= bv.push(token@));
            },
            Err(_) => {
                match translate_buffer(&buffer, &mut prog) {
                    Ok(()) => {},
                    Err(a) => {
                        proof {
                            lemma_first_pass_stop(items, i + 1);
                        }
                        return Err(a);
                    },
                }
                buffer = Vec::new();
                assert(tokens_view(buffer@) =~= seq![]);
            },
        }
        i += 1;
    }
    assert(items.take(i as int) =~= items);
    fill_addresses(prog.byte_code, &prog.labels)
}

/// The second pass produces exactly as many bytes as the cells stand for: an
/// address slot becomes exactly two bytes.
pub proof fn lemma_resolved_length(code: Seq<Cell>, labels: Seq<(Seq<char>, u16)>)
    requires
        resolve(code, labels) is Ok,
    ensures
        resolve(code, labels)->Ok_0.len() == code_size(code),
    decreases code.len(),
{
    if code.len() > 0 {
        lemma_resolved_length(code.drop_last(), labels);
    }
}

/// Each address slot is filled from the final label table, at the place that
/// the cells before it stand for, whether its label was defined before or
/// after it.
pub proof fn lemma_slot_address(code: Seq<Cell>, labels: Seq<(Seq<char>, u16)>, k: int)
    requires
        resolve(code, labels) is Ok,
        0 <= k < code.len(),
        code[k] is Addr,
    ensures
        ({
            let name = code[k]->Addr_1;
            let at = code_size(code.take(k)) as int;
            let bytes = resolve(code, labels)->Ok_0;
            &&& lookup(labels, name) is Some
            &&& bytes.subrange(at, at + 2) == word_bytes(lookup(labels, name)->Some_0)
        }),
    decreases code.len(),
{
    let prev = code.drop_last();
    lemma_resolved_length(prev, labels);
    if k == code.len() - 1 {
        assert(code.take(k) =~= prev);
        let bytes = resolve(code, labels)->Ok_0;
        let w = lookup(labels, code[k]->Addr_1)->Some_0;
        assert(bytes.subrange(code_size(prev) as int, (code_size(prev) + 2) as int) =~= word_bytes(w));
    } else {
        assert(prev.take(k) =~= code.take(k));
        lemma_slot_address(prev, labels, k);
        lemma_code_size_prefix(prev, k);
        let at = code_size(code.take(k)) as int;
        let before = resolve(prev, labels)->Ok_0;
        let bytes = resolve(code, labels)->Ok_0;
        assert(bytes.subrange(at, at + 2) =~= before.subrange(at, at + 2));
    }
}

proof fn lemma_code_size_prefix(code: Seq<Cell>, k: int)
    requires
        0 <= k < code.len(),
        code[k] is Addr,
    ensures
        code_size(code.take(k)) + 2 <= code_size(code),
    decreases code.len(),
{
    if k < code.len() - 1 {
        assert(code.drop_last().take(k) =~= code.take(k));
        lemma_code_size_prefix(code.drop_last(), k);
    } else {
        assert(code.take(k) =~= code.drop_last());
    }
}

proof fn lemma_lookup_push(labels: Seq<(Seq<char>, u16)>, x: (Seq<char>, u16), name: Seq<char>)
    ensures
        lookup(labels.push(x), name) == (if lookup(labels, name) is Some {
            lookup(labels, name)
        } else if x.0 == name {
            Some(x.1)
        } else {
            None
        }),
    decreases labels.len(),
{
    if labels.len() > 0 {
        assert(labels.push(x).skip(1) =~= labels.skip(1).push(x));
        assert(labels.push(x)[0] == labels[0]);
        lemma_lookup_push(labels.skip(1), x, name);
    } else {
        let empty: Seq<(Seq<char>, u16)> = seq![];
        assert(labels.push(x).skip(1) =~= empty);
        assert(labels.push(x)[0] == x);
        assert(lookup(empty, name) is None);
    }
}

/// Whether a token defines the label `name`.
pub open spec fn defines(t: TokenView, name: Seq<char>) -> bool {
    t.kind matches Lexeme::Label(text) && label_name(text) == name
}

proof fn lemma_line_labels(
    ts: Seq<TokenView>,
    labels: Seq<(Seq<char>, u16)>,
    here: u16,
    name: Seq<char>,
)
    requires
        line_state(ts, labels, here) is Ok,
        exists|i: int| 0 <= i < ts.len() && defines(ts[i], name),
    ensures
        lookup(line_state(ts, labels, here)->Ok_0.labels, name) == Some(here),
    decreases ts.len(),
{
    let prev = ts.drop_last();
    let s = line_state(prev, labels, here)->Ok_0;
    let last = ts.last();
    if exists|i: int| 0 <= i < prev.len() && defines(prev[i], name) {
        lemma_line_labels(prev, labels, here, name);
        if let Lexeme::Label(n2) = last.kind {
            lemma_lookup_push(s.labels, (label_name(n2), here), name);
        }
    } else {
        let i = choose|i: int| 0 <= i < ts.len() && defines(ts[i], name);
        if i < prev.len() {
            assert(prev[i] == ts[i]);
        }
        assert(i == ts.len() - 1);
        lemma_lookup_push(s.labels, (name, here), name);
    }
}

/// A label takes the address at which its line's statement starts: the
/// number of bytes, modulo 2^16, that the statements before it produce.
pub proof fn lemma_label_offset(ts: Seq<TokenView>, p: Pass, name: Seq<char>)
    requires
        translate_line(ts, p) is Ok,
        exists|i: int| 0 <= i < ts.len() && defines(ts[i], name),
    ensures
        lookup(translate_line(ts, p)->Ok_0.labels, name) == Some(offset(p.code)),
        forall|labels: Seq<(Seq<char>, u16)>| #[trigger]
            resolve(p.code, labels) is Ok ==> resolve(p.code, labels)->Ok_0.len() == code_size(
                p.code,
            ),
{
    lemma_line_labels(ts, p.labels, offset(p.code), name);
    assert forall|labels: Seq<(Seq<char>, u16)>| #[trigger]
        resolve(p.code, labels) is Ok implies resolve(p.code, labels)->Ok_0.len() == code_size(
        p.code,
    ) by {
        lemma_resolved_length(p.code, labels);
    }
}

proof fn lemma_line_keeps(
    ts: Seq<TokenView>,
    labels: Seq<(Seq<char>, u16)>,
    here: u16,
    name: Seq<char>,
)
    requires
        line_state(ts, labels, here) is Ok,
        lookup(labels, name) is Some,
    ensures
        lookup(line_state(ts, labels, here)->Ok_0.labels, name) == lookup(labels, name),
    decreases ts.len(),
{
    if ts.len() > 0 {
        lemma_line_keeps(ts.drop_last(), labels, here, name);
        let s = line_state(ts.drop_last(), labels, here)->Ok_0;
        if let Lexeme::Label(n2) = ts.last().kind {
            lemma_lookup_push(s.labels, (label_name(n2), here), name);
        }
    }
}

/// A line leaves the cells before it in place and the labels known before it
/// at their addresses.
proof fn lemma_translate_keeps(ts: Seq<TokenView>, p: Pass, name: Seq<char>)
    requires
        translate_line(ts, p) is Ok,
    ensures
        ({
            let next = translate_line(ts, p)->Ok_0;
            &&& p.code.len() <= next.code.len()
            &&& next.code.take(p.code.len() as int) == p.code
            &&& lookup(p.labels, name) is Some ==> lookup(next.labels, name) == lookup(
                p.labels,
                name,
            )
        }),
{
    let next = translate_line(ts, p)->Ok_0;
    if lookup(p.labels, name) is Some {
        lemma_line_keeps(ts, p.labels, offset(p.code), name);
    }
    assert(next.code.take(p.code.len() as int) =~= p.code);
}

proof fn lemma_first_pass_keeps(items: Seq<Option<TokenView>>, k: int, name: Seq<char>)
    requires
        0 <= k <= items.len(),
        first_pass(items) is Ok,
    ensures
        first_pass(items.take(k)) is Ok,
        ({
            let before = first_pass(items.take(k))->Ok_0.0;
            let after = first_pass(items)->Ok_0.0;
            &&& before.code.len() <= after.code.len()
            &&& after.code.take(before.code.len() as int) == before.code
            &&& lookup(before.labels, name) is Some ==> lookup(after.labels, name) == lookup(
                before.labels,
                name,
            )
        }),
    decreases items.len(),
{
    if k == items.len() {
        assert(items.take(k) =~= items);
        let after = first_pass(items)->Ok_0.0;
        assert(after.code.take(after.code.len() as int) =~= after.code);
    } else {
        let prev = items.drop_last();
        assert(prev.take(k) =~= items.take(k));
        lemma_first_pass_keeps(prev, k, name);
        let before = first_pass(items.take(k))->Ok_0.0;
        let (mid, buf) = first_pass(prev)->Ok_0;
        let after = first_pass(items)->Ok_0.0;
        if items.last() is None {
            lemma_translate_keeps(buf, mid, name);
            assert(after.code.take(before.code.len() as int) =~= mid.code.take(
                before.code.len() as int,
            ));
        }
    }
}

/// Every label has, in the final table, the address of the first byte of its
/// own line: the number of bytes, modulo 2^16, that the lines before it
/// produce. `k` is the end of the label's line.
pub proof fn lemma_program_label_offset(items: Seq<Option<TokenView>>, k: int, name: Seq<char>)
    requires
        0 <= k < items.len(),
        items[k] is None,
        first_pass(items) is Ok,
        first_pass(items.take(k)) is Ok,
        exists|i: int|
            0 <= i < first_pass(items.take(k))->Ok_0.1.len() && defines(
                #[trigger] first_pass(items.take(k))->Ok_0.1[i],
                name,
            ),
    ensures
        lookup(first_pass(items)->Ok_0.0.labels, name) == Some(
            offset(first_pass(items.take(k))->Ok_0.0.code),
        ),
{
    let (p, buf) = first_pass(items.take(k))->Ok_0;
    lemma_first_pass_keeps(items, k + 1, name);
    assert(items.take(k + 1).drop_last() =~= items.take(k));
    assert(items.take(k + 1).last() == items[k]);
    lemma_label_offset(buf, p, name);
}

/// The first pass over one statement, whose tokens are in `buffer`. On an
/// error the program is left as it was.
pub fn translate_buffer(buffer: &Vec<Token>, prog: &mut Program) -> (r: Result<(), AssemblyError>)
    requires
        old(prog).wf(),
    ensures
        match translate_line(tokens_view(buffer@), old(prog)@) {
            Ok(p) => r is Ok && final(prog)@ == p,
            Err(e) => r matches Err(a) && is_error(a, e) && final(prog)@ == old(prog)@,
        },
        final(prog).wf(),
{
    let len0 = prog.labels.len();
    let res = translate_statement(buffer, prog);
    match res {
        Ok(()) => Ok(()),
        Err(a) => {
            prog.labels.truncate(len0);
            assert(prog.labels@ =~= old(prog).labels@);
            Err(a)
        },
    }
}

} // verus!
