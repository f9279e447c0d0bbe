//! The errors that stop an assembly, each tied to the token at fault.
use vstd::prelude::*;

use crate::token::{push_char, tokenizing_help, Token, TokenizingError};

verus! {

/// What went wrong.
#[derive(Debug)]
pub enum ErrorCode {
    BadOrigin,
    BadDestination,
    /// The operands that the mnemonic takes.
    ExcessiveOperands(usize),
    MultipleMnemonics,
    NoLabel,
    NoMnemonic,
    /// The operands found, and the operands that the mnemonic takes.
    NotEnoughOperands(usize, usize),
    RedefinedLabel,
    UnexpectedComma,
    UnexpectedLabel,
    UnknownLabel(String),
    Token(TokenizingError),
}

/// What an `ErrorCode` denotes, with a label seen as its characters.
pub enum Fault {
    BadOrigin,
    BadDestination,
    ExcessiveOperands(usize),
    MultipleMnemonics,
    NoLabel,
    NoMnemonic,
    NotEnoughOperands(usize, usize),
    RedefinedLabel,
    UnexpectedComma,
    UnexpectedLabel,
    UnknownLabel(Seq<char>),
    Token(TokenizingError),
}

impl View for ErrorCode {
    type V = Fault;

    open spec fn view(&self) -> Fault {
        match self {
            ErrorCode::BadOrigin => Fault::BadOrigin,
            ErrorCode::BadDestination => Fault::BadDestination,
            ErrorCode::ExcessiveOperands(n) => Fault::ExcessiveOperands(*n),
            ErrorCode::MultipleMnemonics => Fault::MultipleMnemonics,
            ErrorCode::NoLabel => Fault::NoLabel,
            ErrorCode::NoMnemonic => Fault::NoMnemonic,
            ErrorCode::NotEnoughOperands(f, r) => Fault::NotEnoughOperands(*f, *r),
            ErrorCode::RedefinedLabel => Fault::RedefinedLabel,
            ErrorCode::UnexpectedComma => Fault::UnexpectedComma,
            ErrorCode::UnexpectedLabel => Fault::UnexpectedLabel,
            ErrorCode::UnknownLabel(s) => Fault::UnknownLabel(s@),
            ErrorCode::Token(e) => Fault::Token(*e),
        }
    }
}

/// An error and the token that it is attributed to.
#[derive(Debug)]
pub struct AssemblyError {
    pub token: Token,
    pub code: ErrorCode,
}

impl AssemblyError {
    pub fn new(token: Token, code: ErrorCode) -> (r: Self)
        ensures
            r.token == token,
            r.code == code,
    {
        AssemblyError { token, code }
    }
}

/// The decimal digits of `n`.
pub open spec fn decimal(n: nat) -> Seq<char>
    decreases n,
{
    let digit = ((48 + n % 10) as u32) as char;
    if n < 10 {
        seq![digit]
    } else {
        decimal(n / 10).push(digit)
    }
}

/// Writes `n` in decimal.
pub fn decimal_string(n: usize) -> (r: String)
    ensures
        r@ == decimal(n as nat),
    decreases n,
{
    let digit = ((48 + n % 10) as u8) as char;
    if n < 10 {
        let mut r = String::new();
        push_char(&mut r, digit);
        assert(r@ =~= decimal(n as nat));
        r
    } else {
        let mut r = decimal_string(n / 10);
        push_char(&mut r, digit);
        r
    }
}

/// The lines of help shown under an error.
pub open spec fn help_lines(f: Fault) -> Seq<Seq<char>> {
    match f {
        Fault::BadOrigin | Fault::BadDestination => seq![
            "valid data flows are: `ROM -> Acc | Register | RAM`,"@,
            "`Acc -> Acc | Register | RAM | Output`,"@,
            "`Register -> Acc`,"@,
            "`RAM -> Acc`,"@,
            "and `Input -> Acc`"@,
        ],
        Fault::ExcessiveOperands(req) => seq![
            "only "@ + decimal(req as nat) + " operand"@ + (if req > 1 {
                "s are"@
            } else {
                " is"@
            }) + " required"@,
        ],
        Fault::MultipleMnemonics => seq!["remove this mnemonic"@],
        Fault::NoLabel => seq!["add a label operand"@],
        Fault::NoMnemonic => seq!["add a mnemonic"@],
        Fault::NotEnoughOperands(found, req) => if found <= req {
            seq![
                "add "@ + decimal((req - found) as nat) + " operand"@ + (if req - found > 1 {
                    "s"@
                } else {
                    ""@
                }),
            ]
        } else {
            seq![
                "remove "@ + decimal((found - req) as nat) + " operand"@ + (if found - req > 1 {
                    "s"@
                } else {
                    ""@
                }),
            ]
        },
        Fault::RedefinedLabel => seq!["remove this label or rename it"@],
        Fault::UnexpectedComma => seq!["remove this comma"@],
        Fault::UnexpectedLabel => seq!["this mnemonic does not accept labels"@],
        Fault::UnknownLabel(label) => seq![
            "add this label somewhere either before a mnemonic, or alone, as `"@ + label + ":`"@,
        ],
        Fault::Token(e) => seq![tokenizing_help(e)],
    }
}

pub open spec fn strings_view(v: Seq<String>) -> Seq<Seq<char>> {
    v.map_values(|s: String| s@)
}

/// `n` operands: the count and the word, in the plural where it is more than
/// one.
fn operand_count(prefix: &str, n: usize) -> (r: String)
    ensures
        r@ == prefix@ + decimal(n as nat) + " operand"@ + (if n > 1 {
            "s"@
        } else {
            ""@
        }),
{
    let mut r = String::from_str(prefix);
    r.append(decimal_string(n).as_str());
    r.append(" operand");
    if n > 1 {
        r.append("s");
    } else {
        r.append("");
    }
    r
}

fn one_line(s: String) -> (r: Vec<String>)
    ensures
        strings_view(r@) == seq![s@],
{
    let mut r: Vec<String> = Vec::new();
    r.push(s);
    assert(strings_view(r@) =~= seq![s@]);
    r
}

impl ErrorCode {
    /// The lines of help shown under this error.
    pub fn help_msg(&self) -> (r: Vec<String>)
        ensures
            strings_view(r@) == help_lines(self@),
    {
        match self {
            ErrorCode::BadOrigin | ErrorCode::BadDestination => {
                let mut r: Vec<String> = Vec::new();
                r.push(String::from_str("valid data flows are: `ROM -> Acc | Register | RAM`,"));
                r.push(String::from_str("`Acc -> Acc | Register | RAM | Output`,"));
                r.push(String::from_str("`Register -> Acc`,"));
                r.push(String::from_str("`RAM -> Acc`,"));
                r.push(String::from_str("and `Input -> Acc`"));
                assert(strings_view(r@) =~= help_lines(self@));
                r
            },
            ErrorCode::ExcessiveOperands(req) => {
                let mut s = operand_count("only ", *req);
                if *req > 1 {
                    s.append(" are");
                } else {
                    s.append(" is");
                }
                s.append(" required");
                proof {
                    reveal_strlit("s");
                    reveal_strlit("");
                    reveal_strlit(" are");
                    reveal_strlit("s are");
                }
                assert(s@ =~= help_lines(self@)[0]);
                one_line(s)
            },
            ErrorCode::MultipleMnemonics => one_line(String::from_str("remove this mnemonic")),
            ErrorCode::NoLabel => one_line(String::from_str("add a label operand")),
            ErrorCode::NoMnemonic => one_line(String::from_str("add a mnemonic")),
            ErrorCode::NotEnoughOperands(found, req) => {
                if *found <= *req {
                    one_line(operand_count("add ", *req - *found))
                } else {
                    one_line(operand_count("remove ", *found - *req))
                }
            },
            ErrorCode::RedefinedLabel => one_line(String::from_str("remove this label or rename it")),
            ErrorCode::UnexpectedComma => one_line(String::from_str("remove this comma")),
            ErrorCode::UnexpectedLabel => one_line(
                String::from_str("this mnemonic does not accept labels"),
            ),
            ErrorCode::UnknownLabel(label) => {
                let mut s = String::from_str(
                    "add this label somewhere either before a mnemonic, or alone, as `",
                );
                s.append(label.as_str());
                s.append(":`");
                one_line(s)
            },
            ErrorCode::Token(e) => one_line(String::from_str(e.help_msg())),
        }
    }
}

} // verus!
