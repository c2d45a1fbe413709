//! The encoder: every resolved command becomes exactly sixteen `0`/`1`
//! characters. An address is its value in binary, left-padded with zeros; a
//! computation is the prefix `111` followed by the 7-bit `comp`, 3-bit `dest`
//! and 3-bit `jmp` codes drawn from the closed mnemonic tables.
use vstd::prelude::*;
use vstd::string::*;

use crate::command::{AsmError, CCommand, CCommandV, CmdV, ParsedCommand};
use crate::strings::str_eq;

verus! {

pub open spec fn bit_char(b: int) -> char {
    if b == 1 {
        '1'
    } else {
        '0'
    }
}

/// The `w` low bits of `n` in binary, most significant first.
pub open spec fn bin_bits(n: int, w: nat) -> Seq<char>
    decreases w,
{
    if w == 0 {
        Seq::empty()
    } else {
        bin_bits(n / 2, (w - 1) as nat).push(bit_char(n % 2))
    }
}

/// The closed `comp` table: the 28 computation mnemonics and their 7-bit
/// codes (the `a` bit selecting `A` or `M`, then the six ALU control bits).
pub open spec fn comp_bits(c: Seq<char>) -> Option<Seq<char>> {
    if c == "0"@ {
        Some("0101010"@)
    } else if c == "1"@ {
        Some("0111111"@)
    } else if c == "-1"@ {
        Some("0111010"@)
    } else if c == "D"@ {
        Some("0001100"@)
    } else if c == "A"@ {
        Some("0110000"@)
    } else if c == "!D"@ {
        Some("0001101"@)
    } else if c == "!A"@ {
        Some("0110001"@)
    } else if c == "-D"@ {
        Some("0001111"@)
    } else if c == "-A"@ {
        Some("0110011"@)
    } else if c == "D+1"@ {
        Some("0011111"@)
    } else if c == "A+1"@ {
        Some("0110111"@)
    } else if c == "D-1"@ {
        Some("0001110"@)
    } else if c == "A-1"@ {
        Some("0110010"@)
    } else if c == "D+A"@ {
        Some("0000010"@)
    } else if c == "D-A"@ {
        Some("0010011"@)
    } else if c == "A-D"@ {
        Some("0000111"@)
    } else if c == "D&A"@ {
        Some("0000000"@)
    } else if c == "D|A"@ {
        Some("0010101"@)
    } else if c == "M"@ {
        Some("1110000"@)
    } else if c == "!M"@ {
        Some("1110001"@)
    } else if c == "-M"@ {
        Some("1110011"@)
    } else if c == "M+1"@ {
        Some("1110111"@)
    } else if c == "M-1"@ {
        Some("1110010"@)
    } else if c == "D+M"@ {
        Some("1000010"@)
    } else if c == "D-M"@ {
        Some("1010011"@)
    } else if c == "M-D"@ {
        Some("1000111"@)
    } else if c == "D&M"@ {
        Some("1000000"@)
    } else if c == "D|M"@ {
        Some("1010101"@)
    } else {
        None
    }
}

/// The closed `dest` table: the eight register subsets, `"null"` for none.
pub open spec fn dest_bits(d: Seq<char>) -> Option<Seq<char>> {
    if d == "null"@ {
        Some("000"@)
    } else if d == "M"@ {
        Some("001"@)
    } else if d == "D"@ {
        Some("010"@)
    } else if d == "MD"@ {
        Some("011"@)
    } else if d == "A"@ {
        Some("100"@)
    } else if d == "AM"@ {
        Some("101"@)
    } else if d == "AD"@ {
        Some("110"@)
    } else if d == "AMD"@ {
        Some("111"@)
    } else {
        None
    }
}

/// The closed `jmp` table: the seven condition codes, `"null"` for none.
pub open spec fn jmp_bits(j: Seq<char>) -> Option<Seq<char>> {
    if j == "null"@ {
        Some("000"@)
    } else if j == "JGT"@ {
        Some("001"@)
    } else if j == "JEQ"@ {
        Some("010"@)
    } else if j == "JGE"@ {
        Some("011"@)
    } else if j == "JLT"@ {
        Some("100"@)
    } else if j == "JNE"@ {
        Some("101"@)
    } else if j == "JLE"@ {
        Some("110"@)
    } else if j == "JMP"@ {
        Some("111"@)
    } else {
        None
    }
}

/// The 16 characters of one resolved command, or its fatal error: an address
/// at or above 32768, or a mnemonic outside its table — `comp` is checked
/// first, then `dest`, then `jmp`.
pub open spec fn encode_cmd(c: CmdV) -> Result<Seq<char>, AsmError> {
    match c {
        CmdV::Addr(n) => if 0 <= n < 32768 {
            Ok(bin_bits(n, 16))
        } else {
            Err(AsmError::AddressOutOfRange)
        },
        CmdV::Comp(cc) => match comp_bits(cc.comp) {
            None => Err(AsmError::UnknownComp),
            Some(cb) => match dest_bits(cc.dest) {
                None => Err(AsmError::UnknownDest),
                Some(db) => match jmp_bits(cc.jmp) {
                    None => Err(AsmError::UnknownJmp),
                    Some(jb) => Ok("111"@ + cb + db + jb),
                },
            },
        },
    }
}

/// Encode every command in order; the first fatal command aborts the run.
pub open spec fn encode_all(cmds: Seq<CmdV>) -> Result<Seq<Seq<char>>, AsmError>
    decreases cmds.len(),
{
    if cmds.len() == 0 {
        Ok(Seq::empty())
    } else {
        match encode_cmd(cmds[0]) {
            Err(e) => Err(e),
            Ok(b) => match encode_all(cmds.drop_first()) {
                Err(e) => Err(e),
                Ok(bs) => Ok(seq![b] + bs),
            },
        }
    }
}

/// Encoding is idempotent: it is a pure function of the resolved command
/// sequence, so re-encoding an equal sequence yields identical binary output.
pub proof fn lemma_encode_deterministic(first_run: Seq<CmdV>, second_run: Seq<CmdV>)
    requires
        first_run == second_run,
    ensures
        encode_all(first_run) == encode_all(second_run),
{
}

/// The `w` low binary digits of `n`, most significant first.
fn bin_str(n: usize, w: usize) -> (r: String)
    ensures
        r@ == bin_bits(n as int, w as nat),
    decreases w,
{
    if w == 0 {
        String::new()
    } else {
        let mut s = bin_str(n / 2, w - 1);
        if n % 2 == 1 {
            s.append("1");
            proof {
                reveal_strlit("1");
                assert(s@ =~= bin_bits(n as int / 2, (w - 1) as nat).push('1'));
            }
        } else {
            s.append("0");
            proof {
                reveal_strlit("0");
                assert(s@ =~= bin_bits(n as int / 2, (w - 1) as nat).push('0'));
            }
        }
        s
    }
}

/// The 7-bit code of a `comp` mnemonic, if the table holds it.
fn comp_code(c: &str) -> (r: Option<&'static str>)
    ensures
        match r {
            Some(code) => comp_bits(c@) == Some(code@),
            None => comp_bits(c@) is None,
        },
{
    if str_eq(c, "0") {
        Some("0101010")
    } else if str_eq(c, "1") {
        Some("0111111")
    } else if str_eq(c, "-1") {
        Some("0111010")
    } else if str_eq(c, "D") {
        Some("0001100")
    } else if str_eq(c, "A") {
        Some("0110000")
    } else if str_eq(c, "!D") {
        Some("0001101")
    } else if str_eq(c, "!A") {
        Some("0110001")
    } else if str_eq(c, "-D") {
        Some("0001111")
    } else if str_eq(c, "-A") {
        Some("0110011")
    } else if str_eq(c, "D+1") {
        Some("0011111")
    } else if str_eq(c, "A+1") {
        Some("0110111")
    } else if str_eq(c, "D-1") {
        Some("0001110")
    } else if str_eq(c, "A-1") {
        Some("0110010")
    } else if str_eq(c, "D+A") {
        Some("0000010")
    } else if str_eq(c, "D-A") {
        Some("0010011")
    } else if str_eq(c, "A-D") {
        Some("0000111")
    } else if str_eq(c, "D&A") {
        Some("0000000")
    } else if str_eq(c, "D|A") {
        Some("0010101")
    } else if str_eq(c, "M") {
        Some("1110000")
    } else if str_eq(c, "!M") {
        Some("1110001")
    } else if str_eq(c, "-M") {
        Some("1110011")
    } else if str_eq(c, "M+1") {
        Some("1110111")
    } else if str_eq(c, "M-1") {
        Some("1110010")
    } else if str_eq(c, "D+M") {
        Some("1000010")
    } else if str_eq(c, "D-M") {
        Some("1010011")
    } else if str_eq(c, "M-D") {
        Some("1000111")
    } else if str_eq(c, "D&M") {
        Some("1000000")
    } else if str_eq(c, "D|M") {
        Some("1010101")
    } else {
        None
    }
}

/// The 3-bit code of a `dest` mnemonic, if the table holds it.
fn dest_code(d: &str) -> (r: Option<&'static str>)
    ensures
        match r {
            Some(code) => dest_bits(d@) == Some(code@),
            None => dest_bits(d@) is None,
        },
{
    if str_eq(d, "null") {
        Some("000")
    } else if str_eq(d, "M") {
        Some("001")
    } else if str_eq(d, "D") {
        Some("010")
    } else if str_eq(d, "MD") {
        Some("011")
    } else if str_eq(d, "A") {
        Some("100")
    } else if str_eq(d, "AM") {
        Some("101")
    } else if str_eq(d, "AD") {
        Some("110")
    } else if str_eq(d, "AMD") {
        Some("111")
    } else {
        None
    }
}

/// The 3-bit code of a `jmp` mnemonic, if the table holds it.
fn jmp_code(j: &str) -> (r: Option<&'static str>)
    ensures
        match r {
            Some(code) => jmp_bits(j@) == Some(code@),
            None => jmp_bits(j@) is None,
        },
{
    if str_eq(j, "null") {
        Some("000")
    } else if str_eq(j, "JGT") {
        Some("001")
    } else if str_eq(j, "JEQ") {
        Some("010")
    } else if str_eq(j, "JGE") {
        Some("011")
    } else if str_eq(j, "JLT") {
        Some("100")
    } else if str_eq(j, "JNE") {
        Some("101")
    } else if str_eq(j, "JLE") {
        Some("110")
    } else if str_eq(j, "JMP") {
        Some("111")
    } else {
        None
    }
}

/// Encode a computation command as `111` + comp + dest + jmp, or report the
/// first mnemonic outside its table — `comp`, then `dest`, then `jmp`.
pub fn encode_computation_command(command: &CCommand) -> (r: Result<String, AsmError>)
    ensures
        match r {
            Ok(s) => encode_cmd(CmdV::Comp(command@)) == Ok::<Seq<char>, AsmError>(s@),
            Err(e) => encode_cmd(CmdV::Comp(command@)) == Err::<Seq<char>, AsmError>(e),
        },
{
    let comp_binary_code = match comp_code(command.comp.as_str()) {
        Some(code) => code,
        None => {
            return Err(AsmError::UnknownComp);
        },
    };
    let dest_binary_code = match dest_code(command.dest.as_str()) {
        Some(code) => code,
        None => {
            return Err(AsmError::UnknownDest);
        },
    };
    let jmp_binary_code = match jmp_code(command.jmp.as_str()) {
        Some(code) => code,
        None => {
            return Err(AsmError::UnknownJmp);
        },
    };
    let mut command_binary_code = "111".to_owned();
    command_binary_code.append(comp_binary_code);
    command_binary_code.append(dest_binary_code);
    command_binary_code.append(jmp_binary_code);
    Ok(command_binary_code)
}

/// Encode an address command as its 16-bit binary value; addresses at or
/// above 32768 are out of range, having no leading `0` bit.
pub fn encode_address_command(address: usize) -> (r: Result<String, AsmError>)
    ensures
        match r {
            Ok(s) => encode_cmd(CmdV::Addr(address as int)) == Ok::<Seq<char>, AsmError>(s@),
            Err(e) => encode_cmd(CmdV::Addr(address as int)) == Err::<Seq<char>, AsmError>(e),
        },
{
    if address >= 32768 {
        Err(AsmError::AddressOutOfRange)
    } else {
        Ok(bin_str(address, 16))
    }
}

/// The encoder over one resolved command sequence.
pub struct Coder {
    parsed_commands: Vec<ParsedCommand>,
}

impl View for Coder {
    type V = Seq<CmdV>;

    closed spec fn view(&self) -> Seq<CmdV> {
        self.parsed_commands.deep_view()
    }
}

impl Coder {
    pub fn new(parsed_commands: Vec<ParsedCommand>) -> (c: Coder)
        ensures
            c@ == parsed_commands.deep_view(),
    {
        Coder { parsed_commands }
    }

    /// Encode every held command, in order, into one 16-character binary
    /// line each; the first fatal command aborts the run.
    pub fn assemble_binary_code(self) -> (r: Result<Vec<String>, AsmError>)
        ensures
            match r {
                Ok(out) => encode_all(self@) == Ok::<Seq<Seq<char>>, AsmError>(out.deep_view()),
                Err(e) => encode_all(self@) == Err::<Seq<Seq<char>>, AsmError>(e),
            },
    {
        let ghost cmds = self@;
        let n = self.parsed_commands.len();
        let mut binary_code: Vec<String> = Vec::new();
        let mut i: usize = 0;
        proof {
            assert(cmds.skip(0) =~= cmds);
            assert(binary_code.deep_view() =~= Seq::<Seq<char>>::empty());
        }
        while i < n
            invariant
                i <= n,
                n == self.parsed_commands@.len(),
                cmds == self@,
                ({
                    let full = encode_all(cmds);
                    let cur = encode_all(cmds.skip(i as int));
                    match cur {
                        Ok(bs) => full == Ok::<Seq<Seq<char>>, AsmError>(
                            binary_code.deep_view() + bs,
                        ),
                        Err(e) => full == Err::<Seq<Seq<char>>, AsmError>(e),
                    }
                }),
            decreases n - i,
        {
            proof {
                assert(cmds.skip(i as int)[0] == cmds[i as int]);
                assert(cmds.skip(i as int).drop_first() =~= cmds.skip(i as int + 1));
                assert(cmds[i as int] == self.parsed_commands@[i as int].deep_view());
            }
            let ghost lines_before = binary_code.deep_view();
            let encoded = match &self.parsed_commands[i] {
                ParsedCommand::Address(address) => encode_address_command(*address),
                ParsedCommand::Computation(command) => encode_computation_command(command),
            };
            match encoded {
                Err(e) => {
                    return Err(e);
                },
                Ok(line) => {
                    let ghost lv = line@;
                    binary_code.push(line);
                    proof {
                        assert(binary_code.deep_view() =~= lines_before.push(lv));
                        if encode_all(cmds.skip(i as int + 1)) is Ok {
                            assert(lines_before.push(lv) + encode_all(
                                cmds.skip(i as int + 1),
                            ).unwrap() =~= lines_before + (seq![lv] + encode_all(
                                cmds.skip(i as int + 1),
                            ).unwrap()));
                        }
                    }
                },
            }
            i = i + 1;
        }
        proof {
            assert(cmds.skip(n as int) =~= Seq::<CmdV>::empty());
            assert(binary_code.deep_view() + Seq::<Seq<char>>::empty() =~= binary_code.deep_view());
        }
        Ok(binary_code)
    }
}

} // verus!
