//! The binary layout of an instruction.
//!
//! An instruction is zero to two page-turn bytes `0b0000_0111`, which select
//! the decoder page that interprets what follows, then the main byte, then an
//! optional literal (ROM) byte, then an optional memory (RAM) address of two
//! bytes, high byte first.
//!
//! The main byte holds three fields: bits 7 to 5 select the ALU operation,
//! bits 4 and 3 a register or a port, and bits 2 to 0 the data flow.
use vstd::prelude::*;

use crate::error::{ErrorCode, Fault};
use crate::token::{Mnemonic, Operand, Port, Primitive, Register};

verus! {

/// The byte that turns the decoder to its next page.
pub const DECODER_PAGE_TURN: u8 = 0b0000_0111;

/// `b` with its ALU field set to `alu`.
pub open spec fn set_alu(b: u8, alu: u8) -> u8 {
    (b & 0b000_11_111) | (alu << 5u8)
}

/// `b` with its register/port field set to `slot`.
pub open spec fn set_slot(b: u8, slot: u8) -> u8 {
    (b & 0b111_00_111) | (slot << 3u8)
}

/// `b` with its data-flow field set to `flow`.
pub open spec fn set_flow(b: u8, flow: u8) -> u8 {
    (b & 0b111_11_000) | flow
}

/// The ALU operation of an arithmetic or logic mnemonic.
pub open spec fn alu_code(m: Mnemonic) -> Option<u8> {
    match m {
        Mnemonic::Add => Some(0),
        Mnemonic::Sub => Some(1),
        Mnemonic::And => Some(2),
        Mnemonic::Or => Some(3),
        Mnemonic::Xor => Some(4),
        Mnemonic::Not => Some(5),
        Mnemonic::Mov => Some(6),
        Mnemonic::Inc => Some(7),
        _ => None,
    }
}

/// The data-flow field of a flow-control or stack mnemonic.
pub open spec fn control_code(m: Mnemonic) -> u8 {
    match m {
        Mnemonic::Jmp | Mnemonic::Push => 0b011,
        Mnemonic::Jmpc | Mnemonic::Pop => 0b100,
        Mnemonic::Jmpz | Mnemonic::Pusha => 0b101,
        Mnemonic::Call | Mnemonic::Popa => 0b110,
        _ => 0b000,
    }
}

/// The decoder page on which a mnemonic lives.
pub open spec fn mnemonic_page(m: Mnemonic) -> usize {
    match m {
        Mnemonic::Jmp | Mnemonic::Jmpc | Mnemonic::Jmpz | Mnemonic::Call => 1,
        Mnemonic::Ret | Mnemonic::Push | Mnemonic::Pop | Mnemonic::Pusha | Mnemonic::Popa => 2,
        _ => 0,
    }
}

/// The main byte `b` once the mnemonic is encoded into it.
pub open spec fn with_mnemonic(b: u8, m: Mnemonic) -> u8 {
    match alu_code(m) {
        Some(alu) => set_alu(b, alu),
        None => set_flow(b, control_code(m)),
    }
}

pub open spec fn register_code(r: Register) -> u8 {
    match r {
        Register::B => 0,
        Register::C => 1,
        Register::D => 2,
        Register::E => 3,
    }
}

/// An operand that the encoder can take: ports are numbered 0 to 3.
pub open spec fn encodable(p: Operand) -> bool {
    p matches Operand::Port(port) ==> port.number() <= 3
}

/// What a data flow sets in an instruction: its data-flow field, its page,
/// its register/port field, and its ROM and RAM parts.
pub struct DataFlow {
    pub flow: u8,
    pub page: usize,
    pub slot: Option<u8>,
    pub rom: Option<u8>,
    pub ram: Option<u16>,
}

pub open spec fn flow_to(flow: u8, page: usize, slot: Option<u8>, rom: Option<u8>, ram: Option<u16>) -> Result<DataFlow, Fault> {
    Ok(DataFlow { flow, page, slot, rom, ram })
}

/// The data flow from `origin` to `dest`, or why there is none.
pub open spec fn data_flow(origin: Operand, dest: Operand) -> Result<DataFlow, Fault> {
    match origin {
        Operand::Accumulator => match dest {
            Operand::Accumulator => flow_to(0b000, 0, None, None, None),
            Operand::Register(r) => flow_to(0b001, 0, Some(register_code(r)), None, None),
            Operand::Memory(m) => flow_to(0b010, 0, None, None, Some(m)),
            Operand::Port(Port::Output(n)) => flow_to(0b011, 0, Some(n), None, None),
            Operand::DynamicMemory(r) => flow_to(0b010, 2, Some(register_code(r)), None, None),
            _ => Err(Fault::BadDestination),
        },
        // Register to register has no flow: the register/port field holds
        // one register only, so the origin is at fault.
        Operand::Register(r) => match dest {
            Operand::Accumulator => flow_to(0b100, 0, Some(register_code(r)), None, None),
            Operand::Register(_) => Err(Fault::BadOrigin),
            _ => Err(Fault::BadDestination),
        },
        Operand::Memory(m) => match dest {
            Operand::Accumulator => flow_to(0b101, 0, None, None, Some(m)),
            _ => Err(Fault::BadDestination),
        },
        Operand::Port(Port::Input(n)) => match dest {
            Operand::Accumulator => flow_to(0b110, 0, Some(n), None, None),
            _ => Err(Fault::BadDestination),
        },
        Operand::Number(b) => match dest {
            Operand::Accumulator => flow_to(0b000, 1, None, Some(b), None),
            Operand::Register(r) => flow_to(0b001, 1, Some(register_code(r)), Some(b), None),
            Operand::Memory(m) => flow_to(0b010, 1, None, Some(b), Some(m)),
            _ => Err(Fault::BadDestination),
        },
        Operand::DynamicMemory(r) => match dest {
            Operand::Accumulator => flow_to(0b001, 2, Some(register_code(r)), None, None),
            _ => Err(Fault::BadDestination),
        },
        _ => Err(Fault::BadOrigin),
    }
}

/// An instruction under construction.
#[derive(Debug)]
pub struct Instruction {
    pub decoder_page: usize,
    pub main: u8,
    pub rom: Option<u8>,
    pub ram: Option<u16>,
}

/// The instruction `i` once the data flow `f` is encoded into it.
pub open spec fn with_flow(i: Instruction, f: DataFlow) -> Instruction {
    let main = match f.slot {
        Some(s) => set_slot(i.main, s),
        None => i.main,
    };
    Instruction {
        decoder_page: f.page,
        main: set_flow(main, f.flow),
        rom: if f.rom is Some {
            f.rom
        } else {
            i.rom
        },
        ram: if f.ram is Some {
            f.ram
        } else {
            i.ram
        },
    }
}

pub open spec fn option_bytes(b: Option<u8>) -> Seq<u8> {
    match b {
        Some(b) => seq![b],
        None => seq![],
    }
}

/// A word as two bytes, high byte first.
pub open spec fn word_bytes(w: u16) -> Seq<u8> {
    seq![(w / 256) as u8, (w % 256) as u8]
}

pub open spec fn option_word_bytes(w: Option<u16>) -> Seq<u8> {
    match w {
        Some(w) => word_bytes(w),
        None => seq![],
    }
}

impl Instruction {
    /// The bytes of the instruction: page turns, main byte, ROM byte, RAM
    /// word.
    pub open spec fn bytes(self) -> Seq<u8> {
        Seq::new(self.decoder_page as nat, |i: int| DECODER_PAGE_TURN) + seq![self.main]
            + option_bytes(self.rom) + option_word_bytes(self.ram)
    }

    /// An instruction with nothing encoded yet.
    pub fn new() -> (r: Self)
        ensures
            r.decoder_page == 0,
            r.main == 0,
            r.rom is None,
            r.ram is None,
    {
        Instruction { decoder_page: 0, main: 0, rom: None, ram: None }
    }

    fn encode_main(self, and: u8, or: u8) -> (r: Self)
        ensures
            r.main == (self.main & and) | or,
            r.decoder_page == self.decoder_page,
            r.rom == self.rom,
            r.ram == self.ram,
    {
        Instruction { main: (self.main & and) | or, ..self }
    }

    fn encode_register(self, reg: Register) -> (r: Self)
        ensures
            r.main == set_slot(self.main, register_code(reg)),
            r.decoder_page == self.decoder_page,
            r.rom == self.rom,
            r.ram == self.ram,
    {
        let b = self.main;
        match reg {
            Register::B => {
                assert((b & 0b111_00_111) | 0 == set_slot(b, 0)) by (bit_vector);
                self.encode_main(0b111_00_111, 0b000_00_000)
            },
            Register::C => {
                assert((b & 0b111_01_111) | 0b000_01_000 == set_slot(b, 1)) by (bit_vector);
                self.encode_main(0b111_01_111, 0b000_01_000)
            },
            Register::D => {
                assert((b & 0b111_10_111) | 0b000_10_000 == set_slot(b, 2)) by (bit_vector);
                self.encode_main(0b111_10_111, 0b000_10_000)
            },
            Register::E => {
                assert((b & 0b111_11_111) | 0b000_11_000 == set_slot(b, 3)) by (bit_vector);
                self.encode_main(0b111_11_111, 0b000_11_000)
            },
        }
    }

    fn encode_port_number(self, port: Port) -> (r: Self)
        requires
            port.number() <= 3,
        ensures
            r.main == set_slot(self.main, port.number()),
            r.decoder_page == self.decoder_page,
            r.rom == self.rom,
            r.ram == self.ram,
    {
        let b = self.main;
        let port_no = port.port_number();
        if port_no == 0 {
            assert((b & 0b111_00_111) | 0 == set_slot(b, 0)) by (bit_vector);
            self.encode_main(0b111_00_111, 0b000_00_000)
        } else if port_no == 1 {
            assert((b & 0b111_01_111) | 0b000_01_000 == set_slot(b, 1)) by (bit_vector);
            self.encode_main(0b111_01_111, 0b000_01_000)
        } else if port_no == 2 {
            assert((b & 0b111_10_111) | 0b000_10_000 == set_slot(b, 2)) by (bit_vector);
            self.encode_main(0b111_10_111, 0b000_10_000)
        } else {
            assert((b & 0b111_11_111) | 0b000_11_000 == set_slot(b, 3)) by (bit_vector);
            self.encode_main(0b111_11_111, 0b000_11_000)
        }
    }

    /// Sets the port field, and the data flow that the port's direction
    /// allows (both live on page 0).
    fn encode_port(self, port: Port) -> (r: Self)
        requires
            port.number() <= 3,
        ensures
            r.main == set_flow(
                set_slot(self.main, port.number()),
                if port is Output {
                    0b011u8
                } else {
                    0b110u8
                },
            ),
            r.decoder_page == self.decoder_page,
            r.rom == self.rom,
            r.ram == self.ram,
    {
        let s = self.encode_port_number(port);
        let b = s.main;
        match port {
            Port::Output(_) => {
                assert((b & 0b111_11_011) | 0b011 == set_flow(b, 0b011)) by (bit_vector);
                s.encode_main(0b111_11_011, 0b000_00_011)
            },
            Port::Input(_) => {
                assert((b & 0b111_11_110) | 0b110 == set_flow(b, 0b110)) by (bit_vector);
                s.encode_main(0b111_11_110, 0b000_00_110)
            },
        }
    }

    /// Encodes the mnemonic: its ALU field, or its data-flow field, and its
    /// decoder page.
    pub fn encode_mnemonic(self, mnemonic: Mnemonic) -> (r: Self)
        ensures
            r.main == with_mnemonic(self.main, mnemonic),
            r.decoder_page == mnemonic_page(mnemonic),
            r.rom == self.rom,
            r.ram == self.ram,
    {
        let b = self.main;
        let (and, or, page): (u8, u8, usize) = match mnemonic {
            Mnemonic::Add => (0b000_11_111, 0b000_00_000, 0),
            Mnemonic::Sub => (0b001_11_111, 0b001_00_000, 0),
            Mnemonic::And => (0b010_11_111, 0b010_00_000, 0),
            Mnemonic::Or => (0b011_11_111, 0b011_00_000, 0),
            Mnemonic::Xor => (0b100_11_111, 0b100_00_000, 0),
            Mnemonic::Not => (0b101_11_111, 0b101_00_000, 0),
            Mnemonic::Mov => (0b110_11_111, 0b110_00_000, 0),
            Mnemonic::Inc => (0b111_11_111, 0b111_00_000, 0),
            Mnemonic::Jmp => (0b111_11_011, 0b000_00_011, 1),
            Mnemonic::Jmpc => (0b111_11_100, 0b000_00_100, 1),
            Mnemonic::Jmpz => (0b111_11_101, 0b000_00_101, 1),
            Mnemonic::Call => (0b111_11_110, 0b000_00_110, 1),
            Mnemonic::Ret => (0b111_11_000, 0b000_00_000, 2),
            Mnemonic::Push => (0b111_11_011, 0b000_00_011, 2),
            Mnemonic::Pop => (0b111_11_100, 0b000_00_100, 2),
            Mnemonic::Pusha => (0b111_11_101, 0b000_00_101, 2),
            Mnemonic::Popa => (0b111_11_110, 0b000_00_110, 2),
        };
        assert((b & 0b000_11_111) | 0b000_00_000 == set_alu(b, 0)) by (bit_vector);
        assert((b & 0b001_11_111) | 0b001_00_000 == set_alu(b, 1)) by (bit_vector);
        assert((b & 0b010_11_111) | 0b010_00_000 == set_alu(b, 2)) by (bit_vector);
        assert((b & 0b011_11_111) | 0b011_00_000 == set_alu(b, 3)) by (bit_vector);
        assert((b & 0b100_11_111) | 0b100_00_000 == set_alu(b, 4)) by (bit_vector);
        assert((b & 0b101_11_111) | 0b101_00_000 == set_alu(b, 5)) by (bit_vector);
        assert((b & 0b110_11_111) | 0b110_00_000 == set_alu(b, 6)) by (bit_vector);
        assert((b & 0b111_11_111) | 0b111_00_000 == set_alu(b, 7)) by (bit_vector);
        assert((b & 0b111_11_000) | 0b000 == set_flow(b, 0b000)) by (bit_vector);
        assert((b & 0b111_11_011) | 0b011 == set_flow(b, 0b011)) by (bit_vector);
        assert((b & 0b111_11_100) | 0b100 == set_flow(b, 0b100)) by (bit_vector);
        assert((b & 0b111_11_101) | 0b101 == set_flow(b, 0b101)) by (bit_vector);
        assert((b & 0b111_11_110) | 0b110 == set_flow(b, 0b110)) by (bit_vector);
        let r = Instruction { decoder_page: page, ..self };
        r.encode_main(and, or)
    }

    /// Sets the data-flow field: the mask keeps the other fields.
    fn put_flow(self, flow: u8) -> (r: Self)
        requires
            flow < 8,
        ensures
            r.main == set_flow(self.main, flow),
            r.decoder_page == self.decoder_page,
            r.rom == self.rom,
            r.ram == self.ram,
    {
        let b = self.main;
        assert((b & (0b111_11_000 | flow)) | flow == set_flow(b, flow)) by (bit_vector)
            requires
                flow < 8,
        ;
        self.encode_main(0b111_11_000 | flow, flow)
    }

    /// Encodes the data flow from `origin` to `dest`, with the decoder page
    /// that it needs in place of the one set before.
    pub fn try_encode_data_flow(self, origin: &Primitive, dest: &Primitive) -> (r: Result<
        Instruction,
        ErrorCode,
    >)
        requires
            encodable(origin@),
            encodable(dest@),
        ensures
            match data_flow(origin@, dest@) {
                Ok(f) => r matches Ok(i) && i == with_flow(self, f),
                Err(e) => r matches Err(c) && c@ == e,
            },
    {
        let mut inst = self;
        let (flow, page): (u8, usize) = match origin {
            Primitive::Accumulator => match dest {
                Primitive::Accumulator => (0b000, 0),
                Primitive::Register(reg) => {
                    inst = inst.encode_register(*reg);
                    (0b001, 0)
                },
                Primitive::Memory(ram) => {
                    inst.ram = Some(*ram);
                    (0b010, 0)
                },
                Primitive::Port(Port::Output(n)) => {
                    inst = inst.encode_port(Port::Output(*n));
                    (0b011, 0)
                },
                Primitive::DynamicMemory(reg) => {
                    inst = inst.encode_register(*reg);
                    (0b010, 2)
                },
                _ => return Err(ErrorCode::BadDestination),
            },
            Primitive::Register(reg) => match dest {
                Primitive::Accumulator => {
                    inst = inst.encode_register(*reg);
                    (0b100, 0)
                },
                Primitive::Register(_) => return Err(ErrorCode::BadOrigin),
                _ => return Err(ErrorCode::BadDestination),
            },
            Primitive::Memory(ram) => {
                inst.ram = Some(*ram);
                match dest {
                    Primitive::Accumulator => (0b101, 0),
                    _ => return Err(ErrorCode::BadDestination),
                }
            },
            Primitive::Port(Port::Input(n)) => {
                inst = inst.encode_port(Port::Input(*n));
                match dest {
                    Primitive::Accumulator => (0b110, 0),
                    _ => return Err(ErrorCode::BadDestination),
                }
            },
            Primitive::Number(rom) => {
                inst.rom = Some(*rom);
                match dest {
                    Primitive::Accumulator => (0b000, 1),
                    Primitive::Register(reg) => {
                        inst = inst.encode_register(*reg);
                        (0b001, 1)
                    },
                    Primitive::Memory(ram) => {
                        inst.ram = Some(*ram);
                        (0b010, 1)
                    },
                    _ => return Err(ErrorCode::BadDestination),
                }
            },
            Primitive::DynamicMemory(reg) => {
                inst = inst.encode_register(*reg);
                match dest {
                    Primitive::Accumulator => (0b001, 2),
                    _ => return Err(ErrorCode::BadDestination),
                }
            },
            _ => return Err(ErrorCode::BadOrigin),
        };
        let ghost m = inst.main;
        proof {
            let ghost f = flow;
            assert(set_flow(set_flow(m, f), f) == set_flow(m, f)) by (bit_vector)
                requires
                    f < 8,
            ;
            assert forall|x: u8| #[trigger] set_flow(set_flow(x, 0b011), 0b011) == set_flow(x, 0b011) by {
                assert(set_flow(set_flow(x, 0b011), 0b011) == set_flow(x, 0b011)) by (bit_vector);
            }
            assert forall|x: u8| #[trigger] set_flow(set_flow(x, 0b110), 0b110) == set_flow(x, 0b110) by {
                assert(set_flow(set_flow(x, 0b110), 0b110) == set_flow(x, 0b110)) by (bit_vector);
            }
        }
        inst.decoder_page = page;
        Ok(inst.put_flow(flow))
    }

    /// The bytes of the instruction.
    pub fn as_bytes(self) -> (r: Vec<u8>)
        ensures
            r@ == self.bytes(),
            r@.len() == self.decoder_page + 1 + (if self.rom is Some {
                1int
            } else {
                0
            }) + (if self.ram is Some {
                2int
            } else {
                0
            }),
    {
        let mut vec: Vec<u8> = Vec::new();
        let mut i: usize = 0;
        while i < self.decoder_page
            invariant
                i <= self.decoder_page,
                vec@ == Seq::new(i as nat, |k: int| DECODER_PAGE_TURN),
            decreases self.decoder_page - i,
        {
            vec.push(DECODER_PAGE_TURN);
            i += 1;
            assert(vec@ =~= Seq::new(i as nat, |k: int| DECODER_PAGE_TURN));
        }
        vec.push(self.main);
        if let Some(byte) = self.rom {
            vec.push(byte);
        }
        if let Some(word) = self.ram {
            vec.push((word / 256) as u8);
            vec.push((word % 256) as u8);
        }
        assert(vec@ =~= self.bytes());
        vec
    }
}

} // verus!
