//! Line normalization, the symbol table seeded with the built-in names, and
//! the two-pass resolver: pass 1 binds labels to program-counter positions,
//! pass 2 emits commands and allocates fresh variable addresses.
use vstd::prelude::*;
use vstd::string::*;

use crate::command::{classify, AsmError, CmdV, LineV, ParsedCommand, ParsedLine};
use crate::strings::find_idx;

verus! {

/// The whitespace stripped from line ends: the ASCII blank characters.
pub open spec fn is_space(c: char) -> bool {
    c == ' ' || c == '\t' || c == '\n' || c == '\r' || c == '\u{b}' || c == '\u{c}'
}

/// `s` without its leading whitespace.
pub open spec fn trim_front(s: Seq<char>) -> Seq<char>
    decreases s.len(),
{
    if s.len() > 0 && is_space(s[0]) {
        trim_front(s.drop_first())
    } else {
        s
    }
}

/// `s` without its trailing whitespace.
pub open spec fn trim_back(s: Seq<char>) -> Seq<char>
    decreases s.len(),
{
    if s.len() > 0 && is_space(s.last()) {
        trim_back(s.drop_last())
    } else {
        s
    }
}

pub open spec fn trim_spaces(s: Seq<char>) -> Seq<char> {
    trim_back(trim_front(s))
}

/// `s` truncated at the first occurrence of `c`, or whole when `c` is absent.
pub open spec fn cut_at(s: Seq<char>, c: char) -> Seq<char> {
    match find_idx(s, c) {
        Some(i) => s.subrange(0, i),
        None => s,
    }
}

/// Canonical form of a raw source line: surrounding whitespace stripped, then
/// truncated at the first space and at the first backslash.
pub open spec fn normalize(s: Seq<char>) -> Seq<char> {
    cut_at(cut_at(trim_spaces(s), ' '), '\\')
}

proof fn lemma_trim_front_skip(s: Seq<char>, k: int)
    requires
        0 <= k <= s.len(),
        forall|j: int| 0 <= j < k ==> is_space(s[j]),
        k < s.len() ==> !is_space(s[k]),
    ensures
        trim_front(s) == s.skip(k),
    decreases k,
{
    if k == 0 {
        assert(s.skip(0) =~= s);
    } else {
        assert(s.drop_first() =~= s.skip(1));
        lemma_trim_front_skip(s.skip(1), k - 1);
        assert(s.skip(1).skip(k - 1) =~= s.skip(k));
    }
}

proof fn lemma_trim_back_take(s: Seq<char>, k: int)
    requires
        0 <= k <= s.len(),
        forall|j: int| k <= j < s.len() ==> is_space(s[j]),
        k > 0 ==> !is_space(s[k - 1]),
    ensures
        trim_back(s) == s.take(k),
    decreases s.len() - k,
{
    if k == s.len() {
        assert(s.take(k) =~= s);
    } else {
        assert(s.drop_last() =~= s.take(s.len() - 1));
        lemma_trim_back_take(s.take(s.len() - 1), k);
        assert(s.take(s.len() - 1).take(k) =~= s.take(k));
    }
}

fn is_space_char(c: char) -> (r: bool)
    ensures
        r == is_space(c),
{
    c == ' ' || c == '\t' || c == '\n' || c == '\r' || c == '\u{b}' || c == '\u{c}'
}

/// Truncate `s` at the first occurrence of `c`, if any.
fn cut_at_char<'a>(s: &'a str, c: char) -> (r: &'a str)
    ensures
        r@ == cut_at(s@, c),
{
    proof {
        crate::strings::lemma_find_idx(s@, c);
    }
    match crate::strings::find_char(s, c) {
        Some(i) => s.substring_char(0, i),
        None => s,
    }
}

/// The table entries read last to first, as a map: a later insertion of a name
/// shadows an earlier one.
spec fn entries_map(s: Seq<(String, usize)>) -> Map<Seq<char>, int>
    decreases s.len(),
{
    if s.len() == 0 {
        Map::empty()
    } else {
        entries_map(s.drop_last()).insert(s.last().0@, s.last().1 as int)
    }
}

proof fn lemma_entries_map_found(s: Seq<(String, usize)>, i: int)
    requires
        0 <= i < s.len(),
        forall|j: int| i < j < s.len() ==> (#[trigger] s[j]).0@ != s[i].0@,
    ensures
        entries_map(s).contains_key(s[i].0@),
        entries_map(s)[s[i].0@] == s[i].1 as int,
    decreases s.len(),
{
    if i < s.len() - 1 {
        lemma_entries_map_found(s.drop_last(), i);
    }
}

proof fn lemma_entries_map_absent(s: Seq<(String, usize)>, k: Seq<char>)
    requires
        forall|j: int| 0 <= j < s.len() ==> (#[trigger] s[j]).0@ != k,
    ensures
        !entries_map(s).contains_key(k),
    decreases s.len(),
{
    if s.len() > 0 {
        lemma_entries_map_absent(s.drop_last(), k);
    }
}

/// The names every table carries from birth: the sixteen numbered registers,
/// the two device addresses, and the five pointer names.
pub open spec fn builtin_symbols() -> Map<Seq<char>, int> {
    Map::empty().insert("R0"@, 0).insert("R1"@, 1).insert("R2"@, 2).insert("R3"@, 3).insert(
        "R4"@,
        4,
    ).insert("R5"@, 5).insert("R6"@, 6).insert("R7"@, 7).insert("R8"@, 8).insert("R9"@, 9).insert(
        "R10"@,
        10,
    ).insert("R11"@, 11).insert("R12"@, 12).insert("R13"@, 13).insert("R14"@, 14).insert(
        "R15"@,
        15,
    ).insert("SCREEN"@, 16384).insert("KBD"@, 24576).insert("SP"@, 0).insert("LCL"@, 1).insert(
        "ARG"@,
        2,
    ).insert("THIS"@, 3).insert("THAT"@, 4)
}

/// What one resolution step does to the table: a known name keeps its address
/// and changes nothing; an unknown one is bound to the free cursor, which then
/// advances by one.
pub open spec fn resolve_symbol(m: Map<Seq<char>, int>, free: int, name: Seq<char>) -> (
    int,
    Map<Seq<char>, int>,
    int,
) {
    if m.contains_key(name) {
        (m[name], m, free)
    } else {
        (free, m.insert(name, free), free + 1)
    }
}

/// The built-in bindings stand in every fresh table: `R0`..`R15` at 0..15,
/// `SCREEN` at 16384, `KBD` at 24576, and `SP`, `LCL`, `ARG`, `THIS`, `THAT`
/// at 0 through 4.
pub proof fn lemma_builtin_addresses()
    ensures
        builtin_symbols().contains_key("R0"@) && builtin_symbols()["R0"@] == 0,
        builtin_symbols().contains_key("R1"@) && builtin_symbols()["R1"@] == 1,
        builtin_symbols().contains_key("R2"@) && builtin_symbols()["R2"@] == 2,
        builtin_symbols().contains_key("R3"@) && builtin_symbols()["R3"@] == 3,
        builtin_symbols().contains_key("R4"@) && builtin_symbols()["R4"@] == 4,
        builtin_symbols().contains_key("R5"@) && builtin_symbols()["R5"@] == 5,
        builtin_symbols().contains_key("R6"@) && builtin_symbols()["R6"@] == 6,
        builtin_symbols().contains_key("R7"@) && builtin_symbols()["R7"@] == 7,
        builtin_symbols().contains_key("R8"@) && builtin_symbols()["R8"@] == 8,
        builtin_symbols().contains_key("R9"@) && builtin_symbols()["R9"@] == 9,
        builtin_symbols().contains_key("R10"@) && builtin_symbols()["R10"@] == 10,
        builtin_symbols().contains_key("R11"@) && builtin_symbols()["R11"@] == 11,
        builtin_symbols().contains_key("R12"@) && builtin_symbols()["R12"@] == 12,
        builtin_symbols().contains_key("R13"@) && builtin_symbols()["R13"@] == 13,
        builtin_symbols().contains_key("R14"@) && builtin_symbols()["R14"@] == 14,
        builtin_symbols().contains_key("R15"@) && builtin_symbols()["R15"@] == 15,
        builtin_symbols().contains_key("SCREEN"@) && builtin_symbols()["SCREEN"@] == 16384,
        builtin_symbols().contains_key("KBD"@) && builtin_symbols()["KBD"@] == 24576,
        builtin_symbols().contains_key("SP"@) && builtin_symbols()["SP"@] == 0,
        builtin_symbols().contains_key("LCL"@) && builtin_symbols()["LCL"@] == 1,
        builtin_symbols().contains_key("ARG"@) && builtin_symbols()["ARG"@] == 2,
        builtin_symbols().contains_key("THIS"@) && builtin_symbols()["THIS"@] == 3,
        builtin_symbols().contains_key("THAT"@) && builtin_symbols()["THAT"@] == 4,
{
    reveal_strlit("R0");
    reveal_strlit("R1");
    reveal_strlit("R2");
    reveal_strlit("R3");
    reveal_strlit("R4");
    reveal_strlit("R5");
    reveal_strlit("R6");
    reveal_strlit("R7");
    reveal_strlit("R8");
    reveal_strlit("R9");
    reveal_strlit("R10");
    reveal_strlit("R11");
    reveal_strlit("R12");
    reveal_strlit("R13");
    reveal_strlit("R14");
    reveal_strlit("R15");
    reveal_strlit("SCREEN");
    reveal_strlit("KBD");
    reveal_strlit("SP");
    reveal_strlit("LCL");
    reveal_strlit("ARG");
    reveal_strlit("THIS");
    reveal_strlit("THAT");
    assert("R0"@ =~= seq!['R', '0']);
    assert("R1"@ =~= seq!['R', '1']);
    assert("R2"@ =~= seq!['R', '2']);
    assert("R3"@ =~= seq!['R', '3']);
    assert("R4"@ =~= seq!['R', '4']);
    assert("R5"@ =~= seq!['R', '5']);
    assert("R6"@ =~= seq!['R', '6']);
    assert("R7"@ =~= seq!['R', '7']);
    assert("R8"@ =~= seq!['R', '8']);
    assert("R9"@ =~= seq!['R', '9']);
    assert("R10"@ =~= seq!['R', '1', '0']);
    assert("R11"@ =~= seq!['R', '1', '1']);
    assert("R12"@ =~= seq!['R', '1', '2']);
    assert("R13"@ =~= seq!['R', '1', '3']);
    assert("R14"@ =~= seq!['R', '1', '4']);
    assert("R15"@ =~= seq!['R', '1', '5']);
    assert("SCREEN"@ =~= seq!['S', 'C', 'R', 'E', 'E', 'N']);
    assert("KBD"@ =~= seq!['K', 'B', 'D']);
    assert("SP"@ =~= seq!['S', 'P']);
    assert("LCL"@ =~= seq!['L', 'C', 'L']);
    assert("ARG"@ =~= seq!['A', 'R', 'G']);
    assert("THIS"@ =~= seq!['T', 'H', 'I', 'S']);
    assert("THAT"@ =~= seq!['T', 'H', 'A', 'T']);
}

/// Resolving a reserved name yields its fixed built-in address and consumes
/// nothing: the table and the free cursor stand as they were. This holds of
/// any table that still binds the name as the built-ins do — that is, as long
/// as no label declaration has shadowed it.
pub proof fn lemma_reserved_resolution(m: Map<Seq<char>, int>, free: int, name: Seq<char>)
    requires
        builtin_symbols().contains_key(name),
        m.contains_key(name),
        m[name] == builtin_symbols()[name],
    ensures
        resolve_symbol(m, free, name) == (builtin_symbols()[name], m, free),
{
}

/// Pass 1 writes only label names: a binding whose name no line declares as a
/// label — every built-in, in particular — survives pass 1 unchanged.
pub proof fn lemma_pass1_preserves_unlabeled(
    lines: Seq<Seq<char>>,
    m: Map<Seq<char>, int>,
    pc: int,
    name: Seq<char>,
)
    requires
        m.contains_key(name),
        forall|i: int|
            0 <= i < lines.len() ==> classify(#[trigger] lines[i]) != Ok::<LineV, AsmError>(
                LineV::Label(name),
            ),
    ensures
        pass1(lines, m, pc).0.contains_key(name),
        pass1(lines, m, pc).0[name] == m[name],
    decreases lines.len(),
{
    if lines.len() > 0 {
        let rest = lines.drop_first();
        assert(forall|i: int|
            0 <= i < rest.len() ==> classify(#[trigger] rest[i]) == classify(lines[i + 1]));
        match classify(lines[0]) {
            Err(e) => {
            },
            Ok(LineV::Label(n2)) => {
                assert(classify(lines[0]) == Ok::<LineV, AsmError>(LineV::Label(n2)));
                assert(n2 != name);
                lemma_pass1_preserves_unlabeled(rest, m.insert(n2, pc), pc, name);
            },
            Ok(LineV::Comment) => {
                lemma_pass1_preserves_unlabeled(rest, m, pc, name);
            },
            Ok(_) => {
                lemma_pass1_preserves_unlabeled(rest, m, pc + 1, name);
            },
        }
    }
}

/// Pass 2 never rebinds a name the table already holds: a label bound by
/// pass 1, or any earlier binding, keeps its address through every variable
/// allocation.
pub proof fn lemma_pass2_preserves_binding(
    lines: Seq<Seq<char>>,
    m: Map<Seq<char>, int>,
    free: int,
    name: Seq<char>,
)
    requires
        m.contains_key(name),
    ensures
        pass2(lines, m, free).1.contains_key(name),
        pass2(lines, m, free).1[name] == m[name],
    decreases lines.len(),
{
    if lines.len() > 0 {
        let rest = lines.drop_first();
        match classify(lines[0]) {
            Err(e) => {
            },
            Ok(LineV::Symbol(n2)) => {
                let (a, m2, f2) = resolve_symbol(m, free, n2);
                lemma_pass2_preserves_binding(rest, m2, f2, name);
            },
            Ok(_) => {
                lemma_pass2_preserves_binding(rest, m, free, name);
            },
        }
    }
}

/// The variables of a program, relative to a table: the symbol names first
/// referenced while absent from it, in the order of that first reference,
/// stopping at the first malformed line.
pub open spec fn fresh_vars(lines: Seq<Seq<char>>, seen: Set<Seq<char>>) -> Seq<Seq<char>>
    decreases lines.len(),
{
    if lines.len() == 0 {
        Seq::empty()
    } else {
        match classify(lines[0]) {
            Err(e) => Seq::empty(),
            Ok(LineV::Symbol(name)) => if seen.contains(name) {
                fresh_vars(lines.drop_first(), seen)
            } else {
                seq![name] + fresh_vars(lines.drop_first(), seen.insert(name))
            },
            Ok(_) => fresh_vars(lines.drop_first(), seen),
        }
    }
}

/// Variable allocation: pass 2 hands the free addresses `free`, `free + 1`,
/// ... to exactly the first-seen variables, in the order of their first
/// reference, and the cursor ends exactly past them. Labels, built-ins and
/// repeated references never consume this range.
pub proof fn lemma_variable_allocation(lines: Seq<Seq<char>>, m: Map<Seq<char>, int>, free: int)
    ensures
        ({
            let fresh = fresh_vars(lines, m.dom());
            let r = pass2(lines, m, free);
            r.2 == free + fresh.len() && forall|k: int|
                0 <= k < fresh.len() ==> r.1.contains_key(#[trigger] fresh[k]) && r.1[fresh[k]]
                    == free + k
        }),
    decreases lines.len(),
{
    let fresh = fresh_vars(lines, m.dom());
    let r = pass2(lines, m, free);
    if lines.len() > 0 {
        let rest = lines.drop_first();
        match classify(lines[0]) {
            Err(e) => {
            },
            Ok(LineV::Symbol(name)) => {
                if m.contains_key(name) {
                    assert(m.dom().contains(name));
                    lemma_variable_allocation(rest, m, free);
                } else {
                    let m2 = m.insert(name, free);
                    assert(m2.dom() =~= m.dom().insert(name));
                    lemma_variable_allocation(rest, m2, free + 1);
                    lemma_pass2_preserves_binding(rest, m2, free + 1, name);
                    let fresh2 = fresh_vars(rest, m2.dom());
                    assert(fresh == seq![name] + fresh2);
                    assert forall|k: int| 0 <= k < fresh.len() implies r.1.contains_key(
                        #[trigger] fresh[k],
                    ) && r.1[fresh[k]] == free + k by {
                        if k == 0 {
                            assert(fresh[0] == name);
                        } else {
                            assert(fresh[k] == fresh2[k - 1]);
                        }
                    }
                }
            },
            Ok(_) => {
                lemma_variable_allocation(rest, m, free);
            },
        }
    }
}

/// The number of commands pass 2 emits for `lines` when no line is malformed:
/// one per address, symbol or computation line.
pub open spec fn emit_count(lines: Seq<Seq<char>>) -> int
    decreases lines.len(),
{
    if lines.len() == 0 {
        0
    } else {
        (match classify(lines[0]) {
            Ok(LineV::Addr(n)) => 1int,
            Ok(LineV::Symbol(name)) => 1int,
            Ok(LineV::Comp(c)) => 1int,
            _ => 0int,
        }) + emit_count(lines.drop_first())
    }
}

/// The program-counter semantics of pass 1: a label is bound to the count of
/// instruction lines above its declaration — labels and comments occupying no
/// slot — wherever the references to it stand. The last declaration of a name
/// wins.
pub proof fn lemma_label_slot_binding(
    lines: Seq<Seq<char>>,
    m: Map<Seq<char>, int>,
    pc: int,
    name: Seq<char>,
    i: int,
)
    requires
        0 <= i < lines.len(),
        classify(lines[i]) == Ok::<LineV, AsmError>(LineV::Label(name)),
        forall|j: int|
            i < j < lines.len() ==> classify(#[trigger] lines[j]) != Ok::<LineV, AsmError>(
                LineV::Label(name),
            ),
        pass1(lines, m, pc).1 is None,
    ensures
        pass1(lines, m, pc).0.contains_key(name),
        pass1(lines, m, pc).0[name] == pc + emit_count(lines.take(i)),
    decreases lines.len(),
{
    let rest = lines.drop_first();
    if i == 0 {
        assert(lines.take(0) =~= Seq::<Seq<char>>::empty());
        assert(forall|j: int|
            0 <= j < rest.len() ==> classify(#[trigger] rest[j]) == classify(lines[j + 1]));
        lemma_pass1_preserves_unlabeled(rest, m.insert(name, pc), pc, name);
    } else {
        assert(lines.take(i).drop_first() =~= rest.take(i - 1));
        assert(lines.take(i)[0] == lines[0]);
        assert(rest[i - 1] == lines[i]);
        assert(forall|j: int|
            i - 1 < j < rest.len() ==> classify(#[trigger] rest[j]) == classify(lines[j + 1]));
        match classify(lines[0]) {
            Err(e) => {
                assert(false);
            },
            Ok(LineV::Label(n2)) => {
                lemma_label_slot_binding(rest, m.insert(n2, pc), pc, name, i - 1);
                assert(emit_count(lines.take(i)) == emit_count(rest.take(i - 1)));
            },
            Ok(LineV::Comment) => {
                lemma_label_slot_binding(rest, m, pc, name, i - 1);
                assert(emit_count(lines.take(i)) == emit_count(rest.take(i - 1)));
            },
            Ok(_) => {
                lemma_label_slot_binding(rest, m, pc + 1, name, i - 1);
                assert(emit_count(lines.take(i)) == 1 + emit_count(rest.take(i - 1)));
            },
        }
    }
}

/// Label resolution is position-independent: once the table binds `name`,
/// every reference line `@name` — whether it stands before or after the
/// declaration that bound it — emits the same command, the fixed address
/// `m[name]`. The emitted command stands at position `emit_count` of the
/// output: the count of instruction lines above the reference.
pub proof fn lemma_position_independent_reference(
    lines: Seq<Seq<char>>,
    m: Map<Seq<char>, int>,
    free: int,
    name: Seq<char>,
    i: int,
)
    requires
        m.contains_key(name),
        0 <= i < lines.len(),
        classify(lines[i]) == Ok::<LineV, AsmError>(LineV::Symbol(name)),
        pass2(lines, m, free).3 is None,
    ensures
        0 <= emit_count(lines.take(i)) < pass2(lines, m, free).0.len(),
        pass2(lines, m, free).0[emit_count(lines.take(i))] == CmdV::Addr(m[name]),
    decreases lines.len(),
{
    let r = pass2(lines, m, free);
    let rest = lines.drop_first();
    if i == 0 {
        assert(lines.take(0) =~= Seq::<Seq<char>>::empty());
    } else {
        assert(lines.take(i).drop_first() =~= rest.take(i - 1));
        assert(lines.take(i)[0] == lines[0]);
        assert(rest[i - 1] == lines[i]);
        match classify(lines[0]) {
            Err(e) => {
                assert(false);
            },
            Ok(LineV::Symbol(n2)) => {
                let (a, m2, f2) = resolve_symbol(m, free, n2);
                lemma_position_independent_reference(rest, m2, f2, name, i - 1);
                assert(m2.contains_key(name) && m2[name] == m[name]);
                assert(emit_count(lines.take(i)) == 1 + emit_count(rest.take(i - 1)));
                assert(r.0[emit_count(lines.take(i))] == pass2(rest, m2, f2).0[emit_count(
                    rest.take(i - 1),
                )]);
            },
            Ok(LineV::Addr(n)) => {
                lemma_position_independent_reference(rest, m, free, name, i - 1);
                assert(emit_count(lines.take(i)) == 1 + emit_count(rest.take(i - 1)));
            },
            Ok(LineV::Comp(c)) => {
                lemma_position_independent_reference(rest, m, free, name, i - 1);
                assert(emit_count(lines.take(i)) == 1 + emit_count(rest.take(i - 1)));
            },
            Ok(LineV::Comment) => {
                lemma_position_independent_reference(rest, m, free, name, i - 1);
                assert(emit_count(lines.take(i)) == emit_count(rest.take(i - 1)));
            },
            Ok(LineV::Label(n2)) => {
                lemma_position_independent_reference(rest, m, free, name, i - 1);
                assert(emit_count(lines.take(i)) == emit_count(rest.take(i - 1)));
            },
        }
    }
}

/// Mathematical image of a `SymbolTable`: the name-to-address map and the
/// free-address cursor.
pub struct SymbolTableV {
    pub symbols: Map<Seq<char>, int>,
    pub free: int,
}

/// The symbol table of one assembly run, with its monotone free-address
/// cursor.
pub struct SymbolTable {
    entries: Vec<(String, usize)>,
    free_memory_address: usize,
}

impl View for SymbolTable {
    type V = SymbolTableV;

    closed spec fn view(&self) -> SymbolTableV {
        SymbolTableV {
            symbols: entries_map(self.entries@),
            free: self.free_memory_address as int,
        }
    }
}

impl SymbolTable {
    /// A fresh table holding exactly the built-in names, with the free cursor
    /// at 16.
    pub fn new() -> (t: SymbolTable)
        ensures
            t@.symbols == builtin_symbols(),
            t@.free == 16,
    {
        let mut t = SymbolTable { entries: Vec::new(), free_memory_address: 16 };
        t.insert_label("R0".to_owned(), 0);
        t.insert_label("R1".to_owned(), 1);
        t.insert_label("R2".to_owned(), 2);
        t.insert_label("R3".to_owned(), 3);
        t.insert_label("R4".to_owned(), 4);
        t.insert_label("R5".to_owned(), 5);
        t.insert_label("R6".to_owned(), 6);
        t.insert_label("R7".to_owned(), 7);
        t.insert_label("R8".to_owned(), 8);
        t.insert_label("R9".to_owned(), 9);
        t.insert_label("R10".to_owned(), 10);
        t.insert_label("R11".to_owned(), 11);
        t.insert_label("R12".to_owned(), 12);
        t.insert_label("R13".to_owned(), 13);
        t.insert_label("R14".to_owned(), 14);
        t.insert_label("R15".to_owned(), 15);
        t.insert_label("SCREEN".to_owned(), 16384);
        t.insert_label("KBD".to_owned(), 24576);
        t.insert_label("SP".to_owned(), 0);
        t.insert_label("LCL".to_owned(), 1);
        t.insert_label("ARG".to_owned(), 2);
        t.insert_label("THIS".to_owned(), 3);
        t.insert_label("THAT".to_owned(), 4);
        t
    }

    /// The address bound to `symbol`, if any.
    pub fn get_symbol(&self, symbol: &String) -> (r: Option<usize>)
        ensures
            match r {
                Some(a) => self@.symbols.contains_key(symbol@) && self@.symbols[symbol@] == a as int,
                None => !self@.symbols.contains_key(symbol@),
            },
    {
        let n = self.entries.len();
        let mut i: usize = n;
        while i > 0
            invariant
                i <= n,
                n == self.entries@.len(),
                forall|j: int| i <= j < n ==> (#[trigger] self.entries@[j]).0@ != symbol@,
            decreases i,
        {
            i = i - 1;
            if self.entries[i].0 == *symbol {
                proof {
                    lemma_entries_map_found(self.entries@, i as int);
                }
                return Some(self.entries[i].1);
            }
        }
        proof {
            lemma_entries_map_absent(self.entries@, symbol@);
        }
        None
    }

    /// Bind `label` to `line_number`, shadowing any earlier binding of that
    /// name. The free cursor does not move.
    pub fn insert_label(&mut self, label: String, line_number: usize)
        ensures
            final(self)@.symbols == old(self)@.symbols.insert(label@, line_number as int),
            final(self)@.free == old(self)@.free,
    {
        let ghost entries0 = self.entries@;
        let ghost key = label@;
        self.entries.push((label, line_number));
        proof {
            assert(self.entries@.drop_last() =~= entries0);
            assert(self.entries@.last().0@ == key);
        }
    }

    /// Resolve `symbol`: a known name keeps its address; an unknown one is
    /// allocated the free cursor, which then advances.
    pub fn eliminate_symbol(&mut self, symbol: String) -> (r: usize)
        requires
            old(self)@.symbols.contains_key(symbol@) || old(self)@.free < usize::MAX,
        ensures
            ({
                let (a, m2, f2) = resolve_symbol(old(self)@.symbols, old(self)@.free, symbol@);
                r as int == a && final(self)@.symbols == m2 && final(self)@.free == f2
            }),
    {
        match self.get_symbol(&symbol) {
            Some(a) => a,
            None => {
                let a = self.free_memory_address;
                self.insert_label(symbol, a);
                self.free_memory_address = a + 1;
                a
            },
        }
    }
}

/// Pass 1 over normalized lines: bind every label to the program-counter
/// position of the next emitted instruction. Labels and comments consume no
/// slot. Returns the grown map and the first classification error, if any;
/// lines past that error are not read.
pub open spec fn pass1(lines: Seq<Seq<char>>, m: Map<Seq<char>, int>, pc: int) -> (
    Map<Seq<char>, int>,
    Option<AsmError>,
)
    decreases lines.len(),
{
    if lines.len() == 0 {
        (m, None)
    } else {
        match classify(lines[0]) {
            Err(e) => (m, Some(e)),
            Ok(LineV::Label(name)) => pass1(lines.drop_first(), m.insert(name, pc), pc),
            Ok(LineV::Comment) => pass1(lines.drop_first(), m, pc),
            Ok(_) => pass1(lines.drop_first(), m, pc + 1),
        }
    }
}

/// Pass 2 over the same lines: drop labels and comments, pass address
/// literals and computations through, and resolve symbols against the map,
/// allocating the free cursor to first-seen names. Returns the emitted
/// commands in source order, the final map and cursor, and the first
/// classification error, if any; lines past that error are not read.
pub open spec fn pass2(lines: Seq<Seq<char>>, m: Map<Seq<char>, int>, free: int) -> (
    Seq<CmdV>,
    Map<Seq<char>, int>,
    int,
    Option<AsmError>,
)
    decreases lines.len(),
{
    if lines.len() == 0 {
        (Seq::empty(), m, free, None)
    } else {
        match classify(lines[0]) {
            Err(e) => (Seq::empty(), m, free, Some(e)),
            Ok(LineV::Addr(n)) => {
                let r = pass2(lines.drop_first(), m, free);
                (seq![CmdV::Addr(n)] + r.0, r.1, r.2, r.3)
            },
            Ok(LineV::Symbol(name)) => {
                let (a, m2, f2) = resolve_symbol(m, free, name);
                let r = pass2(lines.drop_first(), m2, f2);
                (seq![CmdV::Addr(a)] + r.0, r.1, r.2, r.3)
            },
            Ok(LineV::Comp(c)) => {
                let r = pass2(lines.drop_first(), m, free);
                (seq![CmdV::Comp(c)] + r.0, r.1, r.2, r.3)
            },
            Ok(LineV::Comment) => pass2(lines.drop_first(), m, free),
            Ok(LineV::Label(_)) => pass2(lines.drop_first(), m, free),
        }
    }
}

/// Mathematical image of a `Parser`: the normalized lines and the symbol
/// table's map and cursor.
pub struct ParserV {
    pub lines: Seq<Seq<char>>,
    pub symbols: Map<Seq<char>, int>,
    pub free: int,
}

/// The two-pass resolver over one program's normalized lines.
pub struct Parser {
    preprocessed_lines: Vec<String>,
    symbol_table: SymbolTable,
}

impl View for Parser {
    type V = ParserV;

    closed spec fn view(&self) -> ParserV {
        ParserV {
            lines: self.preprocessed_lines.deep_view(),
            symbols: self.symbol_table@.symbols,
            free: self.symbol_table@.free,
        }
    }
}

impl Parser {
    /// Normalize one raw source line: strip surrounding whitespace, then
    /// truncate at the first space and at the first backslash.
    pub fn preprocess_raw_line(raw_line: &str) -> (r: String)
        ensures
            r@ == normalize(raw_line@),
    {
        let n = raw_line.unicode_len();
        let mut start: usize = 0;
        while start < n && is_space_char(raw_line.get_char(start))
            invariant
                start <= n,
                n == raw_line@.len(),
                forall|j: int| 0 <= j < start ==> is_space(raw_line@[j]),
            decreases n - start,
        {
            start = start + 1;
        }
        let mut end: usize = n;
        while end > start && is_space_char(raw_line.get_char(end - 1))
            invariant
                start <= end <= n,
                n == raw_line@.len(),
                forall|j: int| end <= j < n ==> is_space(raw_line@[j]),
            decreases end,
        {
            end = end - 1;
        }
        let trimmed = raw_line.substring_char(start, end);
        proof {
            lemma_trim_front_skip(raw_line@, start as int);
            lemma_trim_back_take(raw_line@.skip(start as int), end - start);
            assert(raw_line@.skip(start as int).take(end - start) =~= raw_line@.subrange(
                start as int,
                end as int,
            ));
        }
        let cut_space = cut_at_char(trimmed, ' ');
        let cut_comment = cut_at_char(cut_space, '\\');
        cut_comment.to_owned()
    }

    /// Normalize every raw line, in order, and seed a fresh symbol table.
    pub fn new(lines_in_sourcecode: Vec<String>) -> (p: Parser)
        ensures
            p@.lines == lines_in_sourcecode.deep_view().map_values(|l: Seq<char>| normalize(l)),
            p@.symbols == builtin_symbols(),
            p@.free == 16,
    {
        let n = lines_in_sourcecode.len();
        let mut preprocessed_lines: Vec<String> = Vec::new();
        for i in 0..n
            invariant
                n == lines_in_sourcecode@.len(),
                preprocessed_lines@.len() == i,
                forall|j: int| 0 <= j < i ==> (#[trigger] preprocessed_lines@[j])@ == normalize(
                    lines_in_sourcecode@[j]@,
                ),
        {
            preprocessed_lines.push(Self::preprocess_raw_line(lines_in_sourcecode[i].as_str()));
        }
        let p = Parser { preprocessed_lines, symbol_table: SymbolTable::new() };
        proof {
            assert(p@.lines =~= lines_in_sourcecode.deep_view().map_values(
                |l: Seq<char>| normalize(l),
            ));
        }
        p
    }

    /// Pass 1: walk the normalized lines once, binding each label to the
    /// program-counter position of the next instruction. The free cursor and
    /// the lines are untouched; the first malformed line aborts the walk.
    pub fn parse_labels(&mut self) -> (r: Result<(), AsmError>)
        ensures
            final(self)@.lines == old(self)@.lines,
            final(self)@.free == old(self)@.free,
            ({
                let (m, err) = pass1(old(self)@.lines, old(self)@.symbols, 0);
                final(self)@.symbols == m && match r {
                    Ok(u) => err is None,
                    Err(e) => err == Some(e),
                }
            }),
    {
        let n = self.preprocessed_lines.len();
        let mut program_line_counter: usize = 0;
        let mut i: usize = 0;
        proof {
            assert(old(self)@.lines.skip(0) =~= old(self)@.lines);
        }
        while i < n
            invariant
                i <= n,
                program_line_counter <= i,
                n == self.preprocessed_lines@.len(),
                self@.lines == old(self)@.lines,
                self@.free == old(self)@.free,
                pass1(old(self)@.lines, old(self)@.symbols, 0) == pass1(
                    old(self)@.lines.skip(i as int),
                    self@.symbols,
                    program_line_counter as int,
                ),
            decreases n - i,
        {
            proof {
                assert(old(self)@.lines.skip(i as int)[0] == old(self)@.lines[i as int]);
                assert(old(self)@.lines.skip(i as int).drop_first() =~= old(self)@.lines.skip(i as int + 1));
            }
            let parsed = ParsedLine::new(self.preprocessed_lines[i].as_str());
            match parsed {
                Err(e) => {
                    return Err(e);
                },
                Ok(ParsedLine::Label(label)) => {
                    self.symbol_table.insert_label(label, program_line_counter);
                },
                Ok(ParsedLine::Comment) => {
                },
                Ok(_) => {
                    program_line_counter = program_line_counter + 1;
                },
            }
            i = i + 1;
        }
        proof {
            assert(old(self)@.lines.skip(n as int) =~= Seq::<Seq<char>>::empty());
        }
        Ok(())
    }

    /// Pass 2: walk the normalized lines again, emitting one command per
    /// surviving line in source order and allocating fresh variable
    /// addresses. The first malformed line aborts the walk; resolutions made
    /// before it remain in the table.
    pub fn parse_commands(&mut self) -> (r: Result<Vec<ParsedCommand>, AsmError>)
        requires
            old(self)@.free + old(self)@.lines.len() <= usize::MAX,
        ensures
            final(self)@.lines == old(self)@.lines,
            ({
                let (cmds, m, free, err) = pass2(
                    old(self)@.lines,
                    old(self)@.symbols,
                    old(self)@.free,
                );
                final(self)@.symbols == m && final(self)@.free == free && match r {
                    Ok(out) => out.deep_view() == cmds && err is None,
                    Err(e) => err == Some(e),
                }
            }),
    {
        let n = self.preprocessed_lines.len();
        let mut parsed_commands: Vec<ParsedCommand> = Vec::new();
        let mut i: usize = 0;
        proof {
            assert(old(self)@.lines.skip(0) =~= old(self)@.lines);
            assert(parsed_commands.deep_view() =~= Seq::<CmdV>::empty());
            assert(Seq::<CmdV>::empty() + pass2(old(self)@.lines, old(self)@.symbols, old(self)@.free).0 =~= pass2(old(self)@.lines, old(self)@.symbols, old(self)@.free).0);
        }
        while i < n
            invariant
                i <= n,
                n == self.preprocessed_lines@.len(),
                self@.lines == old(self)@.lines,
                self@.free <= old(self)@.free + i,
                old(self)@.free + old(self)@.lines.len() <= usize::MAX,
                ({
                    let full = pass2(old(self)@.lines, old(self)@.symbols, old(self)@.free);
                    let cur = pass2(old(self)@.lines.skip(i as int), self@.symbols, self@.free);
                    full.0 == parsed_commands.deep_view() + cur.0 && full.1 == cur.1 && full.2
                        == cur.2 && full.3 == cur.3
                }),
            decreases n - i,
        {
            proof {
                assert(old(self)@.lines.skip(i as int)[0] == old(self)@.lines[i as int]);
                assert(old(self)@.lines.skip(i as int).drop_first() =~= old(self)@.lines.skip(i as int + 1));
            }
            let ghost cmds_before = parsed_commands.deep_view();
            let parsed = ParsedLine::new(self.preprocessed_lines[i].as_str());
            match parsed {
                Err(e) => {
                    return Err(e);
                },
                Ok(ParsedLine::Address(address)) => {
                    parsed_commands.push(ParsedCommand::Address(address));
                    proof {
                        assert(parsed_commands.deep_view() =~= cmds_before.push(
                            CmdV::Addr(address as int),
                        ));
                        assert(cmds_before.push(CmdV::Addr(address as int)) + pass2(
                            old(self)@.lines.skip(i as int + 1),
                            self@.symbols,
                            self@.free,
                        ).0 =~= cmds_before + (seq![CmdV::Addr(address as int)] + pass2(
                            old(self)@.lines.skip(i as int + 1),
                            self@.symbols,
                            self@.free,
                        ).0));
                    }
                },
                Ok(ParsedLine::Symbol(symbol)) => {
                    let ghost name = symbol@;
                    let address = self.symbol_table.eliminate_symbol(symbol);
                    parsed_commands.push(ParsedCommand::Address(address));
                    proof {
                        assert(parsed_commands.deep_view() =~= cmds_before.push(
                            CmdV::Addr(address as int),
                        ));
                        assert(cmds_before.push(CmdV::Addr(address as int)) + pass2(
                            old(self)@.lines.skip(i as int + 1),
                            self@.symbols,
                            self@.free,
                        ).0 =~= cmds_before + (seq![CmdV::Addr(address as int)] + pass2(
                            old(self)@.lines.skip(i as int + 1),
                            self@.symbols,
                            self@.free,
                        ).0));
                    }
                },
                Ok(ParsedLine::Computation(command)) => {
                    let ghost cv = command@;
                    parsed_commands.push(ParsedCommand::Computation(command));
                    proof {
                        assert(parsed_commands.deep_view() =~= cmds_before.push(CmdV::Comp(cv)));
                        assert(cmds_before.push(CmdV::Comp(cv)) + pass2(
                            old(self)@.lines.skip(i as int + 1),
                            self@.symbols,
                            self@.free,
                        ).0 =~= cmds_before + (seq![CmdV::Comp(cv)] + pass2(
                            old(self)@.lines.skip(i as int + 1),
                            self@.symbols,
                            self@.free,
                        ).0));
                    }
                },
                Ok(ParsedLine::Comment) => {
                },
                Ok(ParsedLine::Label(label)) => {
                },
            }
            i = i + 1;
        }
        proof {
            assert(old(self)@.lines.skip(n as int) =~= Seq::<Seq<char>>::empty());
            assert(parsed_commands.deep_view() + Seq::<CmdV>::empty() =~= parsed_commands.deep_view());
        }
        Ok(parsed_commands)
    }
}

} // verus!
