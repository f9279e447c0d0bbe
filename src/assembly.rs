//! An assembled program, and the text container of the Logisim simulator.
use vstd::prelude::*;

use crate::error::{AssemblyError, Fault};
use crate::lexer::{
    lemma_comment_keeps_program, lemma_lines_around, lex, no_newline, scan, source_lines,
    split_from, split_state,
};
use crate::parser::{
    assemble_items, code_size, defines, eval, first_pass, is_error, lemma_program_label_offset,
    lemma_slot_address, offset, Cell,
};
use crate::token::{items_view, Token, TokenView, EOL};

verus! {

/// What assembling a source text gives: the program's bytes, or the first
/// error. An error of the parser comes before one of the lexer, which the
/// parser meets as the end of its input.
pub open spec fn assemble_text(src: Seq<char>) -> Result<Seq<u8>, (TokenView, Fault)> {
    let (items, lex_err) = lex(src);
    match assemble_items(items) {
        Err(e) => Err(e),
        Ok(bytes) => match lex_err {
            Some((t, e)) => Err((t, Fault::Token(e))),
            None => Ok(bytes),
        },
    }
}

/// The ASCII code of a hexadecimal digit, lower case.
pub open spec fn hex_digit(n: u8) -> u8 {
    if n < 10 {
        (48 + n) as u8
    } else {
        (97 + n - 10) as u8
    }
}

/// A byte in the Logisim container: its hexadecimal digits without a leading
/// zero, then a space.
pub open spec fn logisim_byte(b: u8) -> Seq<u8> {
    (if b / 16 != 0 {
        seq![hex_digit(b / 16)]
    } else {
        seq![]
    }) + seq![hex_digit(b % 16), 32u8]
}

pub open spec fn logisim_body(data: Seq<u8>) -> Seq<u8>
    decreases data.len(),
{
    if data.len() == 0 {
        seq![]
    } else {
        logisim_body(data.drop_last()) + logisim_byte(data.last())
    }
}

/// The header `v2.0 raw\r\n`.
pub open spec fn logisim_header() -> Seq<u8> {
    seq![118u8, 50, 46, 48, 32, 114, 97, 119, 13, 10]
}

/// The Logisim container of `data`.
pub open spec fn logisim(data: Seq<u8>) -> Seq<u8> {
    logisim_header() + logisim_body(data)
}

/// An assembled program, and where it is to be saved, if anywhere.
pub struct Assembly {
    data: Vec<u8>,
    path: Option<String>,
}

impl Assembly {
    pub closed spec fn bytes(&self) -> Seq<u8> {
        self.data@
    }

    pub closed spec fn save_path(&self) -> Option<Seq<char>> {
        match self.path {
            Some(p) => Some(p@),
            None => None,
        }
    }

    /// Assembles a source text.
    pub fn assemble(src: String) -> (r: Result<Assembly, AssemblyError>)
        ensures
            match assemble_text(src@) {
                Ok(bytes) => r matches Ok(a) && a.bytes() == bytes && a.save_path() is None,
                Err(e) => r matches Err(x) && is_error(x, e),
            },
    {
        let mut channel: Vec<Result<Token, EOL>> = Vec::new();
        let lexed = scan(src.as_str(), &mut channel);
        assert(items_view(channel@) =~= lex(src@).0);
        let data = match eval(channel) {
            Ok(data) => data,
            Err(err) => return Err(err),
        };
        match lexed {
            Ok(()) => Ok(Assembly { data, path: None }),
            Err(err) => Err(err),
        }
    }

    /// Rewrites the program's bytes into the Logisim container.
    pub fn to_logisim(&mut self) -> (r: &mut Self)
        ensures
            r.bytes() == logisim(old(self).bytes()),
            r.save_path() == old(self).save_path(),
            *final(self) == *final(r),
    {
        // the header `v2.0 raw\r\n`
        let mut vec: Vec<u8> = Vec::new();
        vec.push(118);
        vec.push(50);
        vec.push(46);
        vec.push(48);
        vec.push(32);
        vec.push(114);
        vec.push(97);
        vec.push(119);
        vec.push(13);
        vec.push(10);
        assert(vec@ =~= logisim_header());
        let mut i: usize = 0;
        while i < self.data.len()
            invariant
                i <= self.data@.len(),
                vec@ == logisim_header() + logisim_body(self.data@.take(i as int)),
            decreases self.data@.len() - i,
        {
            let byte = self.data[i];
            let ghost before = vec@;
            let (hi, lo) = byte_as_hexadecimal(byte);
            if hi != 48 {
                vec.push(hi);
            }
            vec.push(lo);
            vec.push(0x20);
            assert(self.data@.take(i + 1).drop_last() =~= self.data@.take(i as int));
            assert(vec@ =~= before + logisim_byte(byte));
            i += 1;
        }
        assert(self.data@.take(i as int) =~= self.data@);
        self.data = vec;
        self
    }

    /// Marks the program to be saved at `path`.
    pub fn then_save_as(&mut self, path: String) -> (r: &mut Self)
        ensures
            r.bytes() == old(self).bytes(),
            r.save_path() == Some(path@),
            *final(self) == *final(r),
    {
        self.path = Some(path);
        self
    }

    /// Cancels the save.
    pub fn discard_save_path(&mut self) -> (r: &mut Self)
        ensures
            r.bytes() == old(self).bytes(),
            r.save_path() is None,
            *final(self) == *final(r),
    {
        self.path = None;
        self
    }

    /// Where the program is to be saved, if anywhere.
    pub fn path(&self) -> (r: Option<&String>)
        ensures
            match r {
                Some(p) => self.save_path() == Some(p@),
                None => self.save_path() is None,
            },
    {
        match &self.path {
            Some(p) => Some(p),
            None => None,
        }
    }

    pub fn as_byte_code(&self) -> (r: &[u8])
        ensures
            r@ == self.bytes(),
    {
        self.data.as_slice()
    }

    pub fn as_mut_byte_code(&mut self) -> (r: &mut [u8])
        ensures
            r@ == old(self).bytes(),
            final(self).bytes() == final(r)@,
            final(self).save_path() == old(self).save_path(),
    {
        self.data.as_mut_slice()
    }
}

impl PartialEq for Assembly {
    fn eq(&self, other: &Self) -> (r: bool) {
        bytes_equal(self.data.as_slice(), other.data.as_slice())
    }
}

impl vstd::std_specs::cmp::PartialEqSpecImpl for Assembly {
    open spec fn obeys_eq_spec() -> bool {
        true
    }

    open spec fn eq_spec(&self, other: &Assembly) -> bool {
        self.bytes() == other.bytes()
    }
}

fn bytes_equal(a: &[u8], b: &[u8]) -> (r: bool)
    ensures
        r == (a@ == b@),
{
    if a.len() != b.len() {
        return false;
    }
    let mut i: usize = 0;
    while i < a.len()
        invariant
            a@.len() == b@.len(),
            i <= a@.len(),
            forall|j: int| 0 <= j < i ==> a@[j] == b@[j],
        decreases a@.len() - i,
    {
        if a[i] != b[i] {
            return false;
        }
        i += 1;
    }
    assert(a@ =~= b@);
    true
}

/// The two hexadecimal digits of a byte, high first.
pub fn byte_as_hexadecimal(byte: u8) -> (r: (u8, u8))
    ensures
        r == (hex_digit(byte / 16), hex_digit(byte % 16)),
{
    (nibble_to_ascii(byte / 16), nibble_to_ascii(byte % 16))
}

/// The ASCII code of a hexadecimal digit.
pub fn nibble_to_ascii(nibble: u8) -> (r: u8)
    requires
        nibble < 16,
    ensures
        r == hex_digit(nibble),
{
    if nibble < 10 {
        48 + nibble
    } else {
        97 + nibble - 10
    }
}

/// Appending a comment `;comment` to a line of a source text leaves what the
/// text assembles to, bytes or error, as it was. The line is
/// `line`, between `pre`, which ends a line, and `post`, which starts a new
/// one.
pub proof fn lemma_comment_keeps_assembly(
    pre: Seq<char>,
    line: Seq<char>,
    comment: Seq<char>,
    post: Seq<char>,
)
    requires
        no_newline(line),
        no_newline(comment),
        pre.len() == 0 || pre.last() == '\n',
        post.len() == 0 || post[0] == '\n',
        line.len() > 0 || post.len() > 0,
    ensures
        assemble_text(pre + (line + seq![';'] + comment) + post) == assemble_text(
            pre + line + post,
        ),
{
    let commented = line + seq![';'] + comment;
    assert(no_newline(commented)) by {
        assert forall|i: int| 0 <= i < commented.len() implies commented[i] != '\n' by {
            if i < line.len() {
                assert(commented[i] == line[i]);
            } else if i > line.len() {
                assert(commented[i] == comment[i - line.len() - 1]);
            }
        }
    }
    lemma_lines_around(pre, line, post);
    lemma_lines_around(pre, commented, post);
    let lines = source_lines(pre + line + post);
    let done = split_state(pre).0;
    let k = done.len() as int;
    let rest = split_from((seq![], seq![]), post.skip(1));
    assert(lines[k] == line);
    if post.len() == 0 {
        assert(source_lines(pre + commented + post) =~= lines.update(k, commented));
    } else if rest.1.len() > 0 {
        assert(source_lines(pre + commented + post) =~= lines.update(k, commented));
    } else {
        assert(source_lines(pre + commented + post) =~= lines.update(k, commented));
    }
    lemma_comment_keeps_program(lines, k, comment);
}

/// A reference to a label and the label's definition give the same address,
/// by the same rule, whether the definition comes before the reference or
/// after it: the two bytes that the reference leaves in the program are the
/// address at which the line defining the label starts. Here `k` is the end
/// of that line in the source's token stream, and `c` the reference's
/// address slot among the cells of the first pass.
pub proof fn lemma_reference_resolves(src: Seq<char>, k: int, name: Seq<char>, c: int)
    requires
        assemble_text(src) is Ok,
        0 <= k < lex(src).0.len(),
        lex(src).0[k] is None,
        first_pass(lex(src).0.take(k)) is Ok,
        exists|i: int|
            0 <= i < first_pass(lex(src).0.take(k))->Ok_0.1.len() && defines(
                #[trigger] first_pass(lex(src).0.take(k))->Ok_0.1[i],
                name,
            ),
        0 <= c < first_pass(lex(src).0)->Ok_0.0.code.len(),
        first_pass(lex(src).0)->Ok_0.0.code[c] matches Cell::Addr(_, n) && n == name,
    ensures
        ({
            let code = first_pass(lex(src).0)->Ok_0.0.code;
            let at = code_size(code.take(c)) as int;
            let label_at = offset(first_pass(lex(src).0.take(k))->Ok_0.0.code);
            assemble_text(src)->Ok_0.subrange(at, at + 2) == seq![
                (label_at / 256) as u8,
                (label_at % 256) as u8,
            ]
        }),
{
    let items = lex(src).0;
    let p = first_pass(items)->Ok_0.0;
    lemma_program_label_offset(items, k, name);
    lemma_slot_address(p.code, p.labels, c);
}

} // verus!
