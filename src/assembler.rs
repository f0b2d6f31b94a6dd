//! The two-pass assembler: a label scan, then the translation proper.
use std::marker::PhantomData;

use vstd::prelude::*;

use crate::code::{
    a_value_to_binary, address_bits, binary_of, is_digit, lemma_address_round_trip,
    lemma_decimal_round_trip, unsigned_digits, comp_bits, comp_to_binary, decimal_of, decimal_text,
    dest_bits, dest_to_binary, jump_bits, jump_to_binary, numeral_u32, parse_number,
};
use crate::error::{text_result, AsmError};
use crate::parser::{
    address_name, classify, clean, comp_field, dest_field, is_skipped, jump_field, label_name,
    next_real, InstructionType, Parser, MAX_LINES, instructions, non_labels, lemma_advance,
};
use crate::text::lemma_first_pos;
use crate::symbol_table::{predefined, SymbolTable, FIRST_VARIABLE};

verus! {

/// The label scan over instructions: the table so far and how many
/// instructions other than labels came before.
pub open spec fn scan_labels(table: Map<Seq<char>, u32>, instrs: Seq<Seq<char>>) -> Result<
    (Map<Seq<char>, u32>, nat),
    AsmError,
>
    decreases instrs.len(),
{
    if instrs.len() == 0 {
        Ok((table, 0))
    } else {
        match scan_labels(table, instrs.drop_last()) {
            Err(e) => Err(e),
            Ok((t, count)) => {
                let s = instrs.last();
                match classify(s) {
                    None => Err(AsmError::InvalidInstruction),
                    Some(InstructionType::L) => Ok((t.insert(label_name(s), count as u32), count)),
                    Some(_) => Ok((t, count + 1)),
                }
            },
        }
    }
}

/// The table after the label scan of a whole program.
pub open spec fn label_table(table: Map<Seq<char>, u32>, lines: Seq<Seq<char>>) -> Result<
    Map<Seq<char>, u32>,
    AsmError,
> {
    match scan_labels(table, instructions(lines)) {
        Err(e) => Err(e),
        Ok((t, _)) => Ok(t),
    }
}

/// Resolves the symbol of an address instruction to a decimal value: a bound
/// name gives its address; a name that is no number becomes the next
/// variable; a number stands for itself.
pub open spec fn resolve(table: Map<Seq<char>, u32>, next: nat, symbol: Seq<char>) -> (
    Seq<char>,
    Map<Seq<char>, u32>,
    nat,
) {
    if table.contains_key(symbol) {
        (decimal_of(table[symbol] as nat), table, next)
    } else if numeral_u32(symbol) is None {
        (decimal_of(next), table.insert(symbol, next as u32), next + 1)
    } else {
        (symbol, table, next)
    }
}

/// The output line of one instruction, with the table and next variable
/// address after it; a label gives no line.
pub open spec fn translate_one(
    table: Map<Seq<char>, u32>,
    next: nat,
    out: Seq<char>,
    s: Seq<char>,
) -> Result<(Map<Seq<char>, u32>, nat, Seq<char>), AsmError> {
    match classify(s) {
        None => Err(AsmError::InvalidInstruction),
        Some(InstructionType::L) => Ok((table, next, out)),
        Some(InstructionType::A) => {
            let (value, t, n) = resolve(table, next, address_name(s));
            match address_bits(value) {
                Err(e) => Err(e),
                Ok(bits) => Ok((t, n, out + (bits + "\n"@))),
            }
        },
        Some(InstructionType::C) => match comp_field(s) {
            None => Err(AsmError::MissingComp),
            Some(c) => match comp_bits(c) {
                Err(e) => Err(e),
                Ok(cb) => match jump_bits(jump_field(s)) {
                    Err(e) => Err(e),
                    Ok(jb) => Ok(
                        (table, next, out + ("111"@ + cb + dest_bits(dest_field(s)) + jb + "\n"@)),
                    ),
                },
            },
        },
    }
}

/// The translation pass over instructions, from `table` with variables
/// starting at 16.
pub open spec fn translate(table: Map<Seq<char>, u32>, instrs: Seq<Seq<char>>) -> Result<
    (Map<Seq<char>, u32>, nat, Seq<char>),
    AsmError,
>
    decreases instrs.len(),
{
    if instrs.len() == 0 {
        Ok((table, FIRST_VARIABLE as nat, Seq::empty()))
    } else {
        match translate(table, instrs.drop_last()) {
            Err(e) => Err(e),
            Ok((t, next, out)) => translate_one(t, next, out, instrs.last()),
        }
    }
}

/// The text that the translation pass writes for a whole program.
pub open spec fn translated(table: Map<Seq<char>, u32>, lines: Seq<Seq<char>>) -> Result<
    Seq<char>,
    AsmError,
> {
    match translate(table, instructions(lines)) {
        Err(e) => Err(e),
        Ok((_, _, out)) => Ok(out),
    }
}

/// The machine code of a program: the label scan from the predefined names,
/// then the translation with the table that it built.
pub open spec fn assembled(lines: Seq<Seq<char>>) -> Result<Seq<char>, AsmError> {
    match label_table(predefined(), lines) {
        Err(e) => Err(e),
        Ok(t) => translated(t, lines),
    }
}

/// The instructions of the first lines come first among all instructions.
proof fn lemma_instructions_prefix(lines: Seq<Seq<char>>, j: int)
    requires
        0 <= j <= lines.len(),
    ensures
        instructions(lines.subrange(0, j)).is_prefix_of(instructions(lines)),
    decreases lines.len(),
{
    if j == lines.len() {
        assert(lines.subrange(0, j) =~= lines);
        assert(instructions(lines).subrange(0, instructions(lines).len() as int) =~= instructions(
            lines,
        ));
    } else {
        let d = lines.drop_last();
        lemma_instructions_prefix(d, j);
        assert(d.subrange(0, j) =~= lines.subrange(0, j));
        let a = instructions(lines.subrange(0, j));
        let b = instructions(d);
        let c = instructions(lines);
        assert(b.is_prefix_of(c)) by {
            assert(c.subrange(0, b.len() as int) =~= b);
        }
        assert(c.subrange(0, a.len() as int) =~= b.subrange(0, a.len() as int));
    }
}

/// A failed label scan stays failed with more instructions after it.
proof fn lemma_scan_fails_on(table: Map<Seq<char>, u32>, a: Seq<Seq<char>>, b: Seq<Seq<char>>)
    requires
        a.is_prefix_of(b),
        scan_labels(table, a) is Err,
    ensures
        scan_labels(table, b) == scan_labels(table, a),
    decreases b.len(),
{
    if b.len() == a.len() {
        assert(b =~= a);
    } else {
        assert(a.is_prefix_of(b.drop_last())) by {
            assert(b.drop_last().subrange(0, a.len() as int) =~= b.subrange(0, a.len() as int));
        }
        lemma_scan_fails_on(table, a, b.drop_last());
    }
}

/// A failed translation stays failed with more instructions after it.
proof fn lemma_translate_fails_on(
    table: Map<Seq<char>, u32>,
    a: Seq<Seq<char>>,
    b: Seq<Seq<char>>,
)
    requires
        a.is_prefix_of(b),
        translate(table, a) is Err,
    ensures
        translate(table, b) == translate(table, a),
    decreases b.len(),
{
    if b.len() == a.len() {
        assert(b =~= a);
    } else {
        assert(a.is_prefix_of(b.drop_last())) by {
            assert(b.drop_last().subrange(0, a.len() as int) =~= b.subrange(0, a.len() as int));
        }
        lemma_translate_fails_on(table, a, b.drop_last());
    }
}

/// Whether some label instruction of `instrs` defines `name`.
pub open spec fn defines_label(instrs: Seq<Seq<char>>, name: Seq<char>) -> bool {
    exists|i: int|
        0 <= i < instrs.len() && classify(#[trigger] instrs[i]) == Some(InstructionType::L)
            && label_name(instrs[i]) == name
}

proof fn lemma_scan_keeps(table: Map<Seq<char>, u32>, instrs: Seq<Seq<char>>, name: Seq<char>)
    requires
        !defines_label(instrs, name),
        scan_labels(table, instrs) is Ok,
    ensures
        scan_labels(table, instrs)->Ok_0.0.contains_key(name) == table.contains_key(name),
        scan_labels(table, instrs)->Ok_0.0[name] == table[name],
    decreases instrs.len(),
{
    if instrs.len() > 0 {
        let d = instrs.drop_last();
        assert(!defines_label(d, name)) by {
            if defines_label(d, name) {
                let i = choose|i: int|
                    0 <= i < d.len() && classify(#[trigger] d[i]) == Some(InstructionType::L)
                        && label_name(d[i]) == name;
                assert(instrs[i] == d[i]);
            }
        }
        lemma_scan_keeps(table, d, name);
        if classify(instrs.last()) == Some(InstructionType::L) {
            assert(label_name(instrs[instrs.len() - 1]) != name);
        }
    }
}

/// A predefined name keeps its address whatever the program holds, unless a
/// label of the program takes the name: after the label scan it is bound to
/// the same address, and an address instruction that names it resolves to
/// that address.
pub proof fn lemma_predefined_fixed(lines: Seq<Seq<char>>, name: Seq<char>, next: nat)
    requires
        predefined().contains_key(name),
        !defines_label(instructions(lines), name),
        label_table(predefined(), lines) is Ok,
    ensures
        label_table(predefined(), lines)->Ok_0.contains_key(name),
        label_table(predefined(), lines)->Ok_0[name] == predefined()[name],
        resolve(label_table(predefined(), lines)->Ok_0, next, name).0 == decimal_of(
            predefined()[name] as nat,
        ),
{
    lemma_scan_keeps(predefined(), instructions(lines), name);
}

proof fn lemma_non_labels_bound(instrs: Seq<Seq<char>>)
    ensures
        non_labels(instrs) <= instrs.len(),
    decreases instrs.len(),
{
    if instrs.len() > 0 {
        lemma_non_labels_bound(instrs.drop_last());
    }
}

/// The label scan counts the instructions other than labels, and binds each
/// label that is not defined again later to the number of instructions other
/// than labels before it: 0 for a label ahead of every instruction, `k`
/// for one after `k` of them.
pub proof fn lemma_label_addresses(table: Map<Seq<char>, u32>, instrs: Seq<Seq<char>>, i: int)
    requires
        instrs.len() <= MAX_LINES,
        scan_labels(table, instrs) is Ok,
        0 <= i < instrs.len(),
        classify(instrs[i]) == Some(InstructionType::L),
        !defines_label(instrs.subrange(i + 1, instrs.len() as int), label_name(instrs[i])),
    ensures
        scan_labels(table, instrs)->Ok_0.1 == non_labels(instrs),
        scan_labels(table, instrs)->Ok_0.0.contains_key(label_name(instrs[i])),
        scan_labels(table, instrs)->Ok_0.0[label_name(instrs[i])] as nat == non_labels(
            instrs.subrange(0, i),
        ),
    decreases instrs.len(),
{
    let d = instrs.drop_last();
    let name = label_name(instrs[i]);
    lemma_count_matches(table, d);
    lemma_non_labels_bound(d);
    if i == instrs.len() - 1 {
        assert(instrs.subrange(0, i) =~= d);
    } else {
        assert(d[i] == instrs[i]);
        assert(!defines_label(d.subrange(i + 1, d.len() as int), name)) by {
            let tail = instrs.subrange(i + 1, instrs.len() as int);
            let dt = d.subrange(i + 1, d.len() as int);
            if defines_label(dt, name) {
                let j = choose|j: int|
                    0 <= j < dt.len() && classify(#[trigger] dt[j]) == Some(InstructionType::L)
                        && label_name(dt[j]) == name;
                assert(tail[j] == dt[j]);
            }
        }
        lemma_label_addresses(table, d, i);
        assert(d.subrange(0, i) =~= instrs.subrange(0, i));
        if classify(instrs.last()) == Some(InstructionType::L) {
            let tail = instrs.subrange(i + 1, instrs.len() as int);
            assert(tail[tail.len() - 1] == instrs.last());
        }
    }
}

proof fn lemma_count_matches(table: Map<Seq<char>, u32>, instrs: Seq<Seq<char>>)
    requires
        scan_labels(table, instrs) is Ok,
    ensures
        scan_labels(table, instrs)->Ok_0.1 == non_labels(instrs),
    decreases instrs.len(),
{
    if instrs.len() > 0 {
        lemma_count_matches(table, instrs.drop_last());
    }
}

/// Variables are numbered from 16 in the order in which they first appear:
/// from the table at the start of the translation, a first new variable
/// resolves to 16, a second to 17, and the first again to 16; and a bound
/// name keeps its address whatever other symbol is resolved.
pub proof fn lemma_variable_allocation(
    table: Map<Seq<char>, u32>,
    x: Seq<char>,
    y: Seq<char>,
    next: nat,
    other: Seq<char>,
)
    requires
        !table.contains_key(x),
        !table.contains_key(y),
        x != y,
        numeral_u32(x) is None,
        numeral_u32(y) is None,
    ensures
        ({
            let (vx, t1, n1) = resolve(table, FIRST_VARIABLE as nat, x);
            let (vy, t2, n2) = resolve(t1, n1, y);
            let (vx2, t3, n3) = resolve(t2, n2, x);
            &&& vx == decimal_of(16)
            &&& vy == decimal_of(17)
            &&& vx2 == decimal_of(16)
            &&& n3 == 18
        }),
        forall|name: Seq<char>|
            #[trigger] table.contains_key(name) ==> resolve(table, next, other).1.contains_key(name)
                && resolve(table, next, other).1[name] == table[name],
{
}

/// Assembly depends on the source alone: the same lines give the same
/// output, byte for byte, on every run.
pub proof fn lemma_assembly_deterministic(a: Seq<Seq<char>>, b: Seq<Seq<char>>)
    requires
        a == b,
    ensures
        assembled(a) == assembled(b),
{
}

/// Blank and comment lines never change the output: a program with such a
/// line inserted anywhere holds the same instructions, so it assembles to
/// the same text or fails the same way.
pub proof fn lemma_blank_lines_ignored(lines: Seq<Seq<char>>, i: int, line: Seq<char>)
    requires
        0 <= i <= lines.len(),
        is_skipped(line),
    ensures
        instructions(lines.insert(i, line)) == instructions(lines),
        assembled(lines.insert(i, line)) == assembled(lines),
    decreases lines.len(),
{
    let l2 = lines.insert(i, line);
    if i == lines.len() {
        assert(l2.drop_last() =~= lines);
    } else {
        lemma_blank_lines_ignored(lines.drop_last(), i, line);
        assert(l2.drop_last() =~= lines.drop_last().insert(i, line));
        assert(l2.last() == lines.last());
    }
}

proof fn lemma_instructions_fewer(lines: Seq<Seq<char>>)
    ensures
        instructions(lines).len() <= lines.len(),
    decreases lines.len(),
{
    if lines.len() > 0 {
        lemma_instructions_fewer(lines.drop_last());
    }
}

/// Labels over a whole program (of a length that `Assembler::new` accepts):
/// a label that is not defined again later is bound to the number of
/// instructions other than labels before it.
pub proof fn lemma_label_table_addresses(table: Map<Seq<char>, u32>, lines: Seq<Seq<char>>, i: int)
    requires
        lines.len() <= MAX_LINES,
        label_table(table, lines) is Ok,
        0 <= i < instructions(lines).len(),
        classify(instructions(lines)[i]) == Some(InstructionType::L),
        !defines_label(
            instructions(lines).subrange(i + 1, instructions(lines).len() as int),
            label_name(instructions(lines)[i]),
        ),
    ensures
        label_table(table, lines)->Ok_0.contains_key(label_name(instructions(lines)[i])),
        label_table(table, lines)->Ok_0[label_name(instructions(lines)[i])] as nat == non_labels(
            instructions(lines).subrange(0, i),
        ),
{
    lemma_instructions_fewer(lines);
    lemma_label_addresses(table, instructions(lines), i);
}

/// The new variables of a translation, in order of first appearance: the
/// symbols of address instructions that are neither bound in `table` nor
/// numbers.
pub open spec fn new_variables(table: Map<Seq<char>, u32>, instrs: Seq<Seq<char>>) -> Seq<
    Seq<char>,
>
    decreases instrs.len(),
{
    if instrs.len() == 0 {
        Seq::empty()
    } else {
        let vs = new_variables(table, instrs.drop_last());
        let s = instrs.last();
        let x = address_name(s);
        if classify(s) == Some(InstructionType::A) && !table.contains_key(x) && !vs.contains(x)
            && numeral_u32(x) is None {
            vs.push(x)
        } else {
            vs
        }
    }
}

/// Variables are numbered by first appearance: after translating any run of
/// instructions, the `j`-th new variable is bound to `16 + j` and every
/// address instruction that names it resolves to `16 + j`; names bound
/// before keep their addresses, and the next variable gets `16` plus the
/// number of variables so far.
pub proof fn lemma_variable_numbering(table: Map<Seq<char>, u32>, instrs: Seq<Seq<char>>)
    requires
        instrs.len() <= MAX_LINES,
        translate(table, instrs) is Ok,
    ensures
        ({
            let (m, n, _) = translate(table, instrs)->Ok_0;
            let vs = new_variables(table, instrs);
            &&& vs.len() <= instrs.len()
            &&& forall|i: int, j: int| 0 <= i < j < vs.len() ==> #[trigger] vs[i] != #[trigger] vs[j]
            &&& n == FIRST_VARIABLE + vs.len()
            &&& forall|k: Seq<char>|
                #[trigger] m.contains_key(k) <==> table.contains_key(k) || vs.contains(k)
            &&& forall|k: Seq<char>| #[trigger] table.contains_key(k) ==> m[k] == table[k]
            &&& forall|j: int|
                0 <= j < vs.len() ==> !table.contains_key(#[trigger] vs[j]) && m[vs[j]] as nat
                    == FIRST_VARIABLE + j
            &&& forall|j: int, nx: nat|
                0 <= j < vs.len() ==> (#[trigger] resolve(m, nx, vs[j])).0 == decimal_of(
                    (FIRST_VARIABLE + j) as nat,
                )
        }),
    decreases instrs.len(),
{
    if instrs.len() > 0 {
        let d = instrs.drop_last();
        lemma_variable_numbering(table, d);
        let (m0, n0, o0) = translate(table, d)->Ok_0;
        let vs0 = new_variables(table, d);
        let vs = new_variables(table, instrs);
        let s = instrs.last();
        let x = address_name(s);
        if classify(s) == Some(InstructionType::A) && !m0.contains_key(x) && numeral_u32(x) is None {
            assert(vs == vs0.push(x));
            assert(vs[vs0.len() as int] == x);
            assert forall|j: int| 0 <= j < vs0.len() implies vs[j] == vs0[j] && vs[j] != x by {
                assert(vs0[j] != x);
            }
            assert forall|i: int, j: int| 0 <= i < j < vs.len() implies vs[i] != vs[j] by {
                if j < vs0.len() {
                    assert(vs0[i] != vs0[j]);
                }
            }
            assert forall|k: Seq<char>| vs.contains(k) <==> vs0.contains(k) || k == x by {
                if vs.contains(k) {
                    let j = choose|j: int| 0 <= j < vs.len() && vs[j] == k;
                    if j < vs0.len() {
                        assert(vs0[j] == k);
                    }
                }
                if vs0.contains(k) {
                    let j = choose|j: int| 0 <= j < vs0.len() && vs0[j] == k;
                    assert(vs[j] == k);
                }
            }
        } else {
            assert(vs == vs0);
        }
    }
}

/// Resolving the same symbol twice gives the same value the second time and
/// changes neither the table nor the next variable address.
pub proof fn lemma_resolve_repeat(table: Map<Seq<char>, u32>, next: nat, x: Seq<char>)
    requires
        next < u32::MAX,
    ensures
        ({
            let (v, t1, n1) = resolve(table, next, x);
            resolve(t1, n1, x) == (v, t1, n1)
        }),
{
}

/// Each line written for an address instruction that names a variable
/// encodes that variable's number: the `j`-th new variable is written as
/// `16 + j` in sixteen bits, at every one of its occurrences.
pub proof fn lemma_variable_lines(table: Map<Seq<char>, u32>, instrs: Seq<Seq<char>>, j: int)
    requires
        instrs.len() <= MAX_LINES,
        translate(table, instrs) is Ok,
        instrs.len() > 0,
        classify(instrs.last()) == Some(InstructionType::A),
        0 <= j < new_variables(table, instrs).len(),
        address_name(instrs.last()) == new_variables(table, instrs)[j],
    ensures
        FIRST_VARIABLE + j < 65536,
        translate(table, instrs)->Ok_0.2 == translate(table, instrs.drop_last())->Ok_0.2 + (
        binary_of((FIRST_VARIABLE + j) as nat, 16) + "\n"@),
{
    let d = instrs.drop_last();
    lemma_variable_numbering(table, d);
    lemma_variable_numbering(table, instrs);
    let (m0, n0, o0) = translate(table, d)->Ok_0;
    let vs0 = new_variables(table, d);
    let vs = new_variables(table, instrs);
    let x = address_name(instrs.last());
    assert(vs[j] == x);
    if m0.contains_key(x) {
        assert(vs0.contains(x));
        let i = choose|i: int| 0 <= i < vs0.len() && vs0[i] == x;
        assert(vs == vs0);
        assert(i == j);
        assert(resolve(m0, n0, vs0[j]).0 == decimal_of((FIRST_VARIABLE + j) as nat));
    } else {
        assert(!vs0.contains(x));
        assert(vs == vs0.push(x));
        assert(vs[vs0.len() as int] == x);
        assert(j == vs0.len());
    }
    let v = (FIRST_VARIABLE + j) as nat;
    lemma_decimal_round_trip(v);
    assert(is_digit(decimal_of(v)[0]));
    assert(unsigned_digits(decimal_of(v)) == decimal_of(v));
    if v < 65536 {
        lemma_address_round_trip(v);
    }
}

/// The phase before the label scan.
pub struct Uninitialized;

/// The phase after the label scan.
pub struct Initialized;

/// An assembly run over one program; `T` is its phase, and only an
/// `Assembler<Initialized>` can translate.
pub struct Assembler<T> {
    parser: Parser,
    symbol_table: SymbolTable,
    _phantom: PhantomData<T>,
}

impl<T> Assembler<T> {
    /// The program's lines.
    pub closed spec fn source(&self) -> Seq<Seq<char>> {
        self.parser.lines()
    }

    /// The symbol table's bindings.
    pub closed spec fn table(&self) -> Map<Seq<char>, u32> {
        self.symbol_table@
    }

    /// The address that the next new variable will get.
    pub closed spec fn next_variable(&self) -> nat {
        self.symbol_table.next_address()
    }

    /// Whether `self` and `other` stand at the same place in the same program.
    pub closed spec fn same_cursor(&self, other: &Self) -> bool {
        self.parser == other.parser
    }

    /// The symbol table is well formed.
    pub closed spec fn table_wf(&self) -> bool {
        self.symbol_table.wf()
    }

    /// The parser stands at the start and no variable has been given out.
    pub closed spec fn wf(&self) -> bool {
        &&& self.parser.wf()
        &&& self.parser.position() == 0
        &&& self.parser.current() == None::<Seq<char>>
        &&& self.parser.index() == 0
        &&& self.symbol_table.wf()
        &&& self.symbol_table.next_address() == FIRST_VARIABLE
    }
}

impl Assembler<Uninitialized> {
    /// An assembler over `program`, with the predefined names in its table.
    pub fn new(program: Vec<String>) -> (r: Assembler<Uninitialized>)
        requires
            program@.len() <= MAX_LINES,
        ensures
            r.wf(),
            r.source() == program@.map_values(|l: String| l@),
            r.table() == predefined(),
    {
        Assembler {
            parser: Parser::new(program),
            symbol_table: SymbolTable::new(),
            _phantom: PhantomData,
        }
    }

    /// Binds every label of the program to the number of instructions
    /// other than labels before it.
    pub fn fill_symbol_table(self) -> (r: Result<Assembler<Initialized>, AsmError>)
        requires
            self.wf(),
        ensures
            match r {
                Ok(a) => {
                    &&& a.wf()
                    &&& a.source() == self.source()
                    &&& label_table(self.table(), self.source()) == Ok::<
                        Map<Seq<char>, u32>,
                        AsmError,
                    >(a.table())
                },
                Err(e) => label_table(self.table(), self.source()) == Err::<
                    Map<Seq<char>, u32>,
                    AsmError,
                >(e),
            },
    {
        let ghost t0 = self.table();
        let ghost lines = self.source();
        let mut parser = self.parser.restarted();
        let mut table = self.symbol_table;
        proof {
            assert(lines.subrange(0, 0) =~= Seq::<Seq<char>>::empty());
        }
        while parser.has_more_lines()
            invariant
                t0 == self.table(),
                lines == self.source(),
                parser.wf(),
                parser.lines() == lines,
                table.wf(),
                table.next_address() == FIRST_VARIABLE,
                0 <= parser.position() <= lines.len(),
                scan_labels(t0, instructions(lines.subrange(0, parser.position()))) == Ok::<
                    (Map<Seq<char>, u32>, nat),
                    AsmError,
                >((table@, parser.index())),
            decreases lines.len() - parser.position(),
        {
            let ghost pos = parser.position();
            let ghost before = instructions(lines.subrange(0, pos));
            proof {
                lemma_advance(lines, pos);
            }
            parser.advance();
            let ghost p = next_real(lines, pos);
            let kind = match parser.instruction_type() {
                Ok(k) => k,
                Err(AsmError::NoInstruction) => {
                    // only blank or comment lines were left: the scan is over
                    continue;
                },
                Err(e) => {
                    proof {
                        let now = before.push(clean(lines[p]));
                        assert(now.drop_last() =~= before);
                        lemma_instructions_prefix(lines, p + 1);
                        lemma_scan_fails_on(t0, now, instructions(lines));
                    }
                    return Err(e);
                },
            };
            proof {
                let now = before.push(clean(lines[p]));
                assert(now.drop_last() =~= before);
            }
            if kind == InstructionType::L {
                let name = parser.symbol()?;
                table.add_label(name, parser.instruction_index());
            }
        }
        proof {
            assert(lines.subrange(0, lines.len() as int) =~= lines);
        }
        Ok(
            Assembler {
                parser: self.parser,
                symbol_table: table,
                _phantom: PhantomData,
            },
        )
    }
}

impl Assembler<Initialized> {
    /// Translates the program into its machine code: one line of sixteen
    /// binary digits for each instruction other than a label.
    pub fn compile(self) -> (r: Result<String, AsmError>)
        requires
            self.wf(),
        ensures
            text_result(r) == translated(self.table(), self.source()),
    {
        let ghost t0 = self.table();
        let ghost lines = self.source();
        let mut run = self;
        let mut compiled_output = String::new();
        proof {
            run.parser.lemma_bounds();
            assert(lines.subrange(0, 0) =~= Seq::<Seq<char>>::empty());
        }
        while run.parser.has_more_lines()
            invariant
                t0 == self.table(),
                lines == self.source(),
                run.parser.wf(),
                run.parser.lines() == lines,
                run.symbol_table.wf(),
                run.symbol_table.next_address() <= FIRST_VARIABLE + run.parser.position(),
                0 <= run.parser.position() <= lines.len(),
                lines.len() <= MAX_LINES,
                translate(t0, instructions(lines.subrange(0, run.parser.position()))) == Ok::<
                    (Map<Seq<char>, u32>, nat, Seq<char>),
                    AsmError,
                >((run.symbol_table@, run.symbol_table.next_address(), compiled_output@)),
            decreases lines.len() - run.parser.position(),
        {
            let ghost pos = run.parser.position();
            let ghost before = instructions(lines.subrange(0, pos));
            proof {
                lemma_advance(lines, pos);
            }
            run.parser.advance();
            let ghost p = next_real(lines, pos);
            let ghost now = if p < lines.len() {
                before.push(clean(lines[p]))
            } else {
                before
            };
            proof {
                run.parser.lemma_bounds();
                if p < lines.len() {
                    assert(now.drop_last() =~= before);
                    lemma_instructions_prefix(lines, p + 1);
                }
            }
            let kind = match run.parser.instruction_type() {
                Ok(k) => k,
                Err(AsmError::NoInstruction) => {
                    // only blank or comment lines were left: the pass is over
                    continue;
                },
                Err(e) => {
                    proof {
                        lemma_translate_fails_on(t0, now, instructions(lines));
                    }
                    return Err(e);
                },
            };
            let bits = match kind {
                InstructionType::A => {
                    let symbol = run.parser.symbol()?;
                    let value = run.add_variable(symbol);
                    match a_value_to_binary(value) {
                        Ok(b) => b,
                        Err(e) => {
                            proof {
                                lemma_translate_fails_on(t0, now, instructions(lines));
                            }
                            return Err(e);
                        },
                    }
                },
                InstructionType::C => {
                    let dest = run.parser.dest()?;
                    proof {
                        lemma_first_pos(clean(lines[p]), '=');
                    }
                    let comp = run.parser.comp()?;
                    let jump = run.parser.jump()?;
                    let cb = match comp_to_binary(comp) {
                        Ok(b) => b,
                        Err(e) => {
                            proof {
                                lemma_translate_fails_on(t0, now, instructions(lines));
                            }
                            return Err(e);
                        },
                    };
                    let db = dest_to_binary(dest);
                    let jb = match jump_to_binary(jump) {
                        Ok(b) => b,
                        Err(e) => {
                            proof {
                                lemma_translate_fails_on(t0, now, instructions(lines));
                            }
                            return Err(e);
                        },
                    };
                    String::from_str("111").concat(cb.as_str()).concat(db.as_str()).concat(
                        jb.as_str(),
                    )
                },
                InstructionType::L => {
                    continue;
                },
            };
            let line = bits.concat("\n");
            compiled_output.append(line.as_str());
        }
        proof {
            assert(lines.subrange(0, lines.len() as int) =~= lines);
        }
        Ok(compiled_output)
    }

    /// Resolves the symbol of an address instruction to a decimal value,
    /// giving a new variable an address where the symbol needs one.
    pub fn add_variable(&mut self, symbol: String) -> (r: String)
        requires
            old(self).table_wf(),
            old(self).next_variable() < u32::MAX,
        ensures
            final(self).table_wf(),
            final(self).same_cursor(old(self)),
            (r@, final(self).table(), final(self).next_variable()) == resolve(
                old(self).table(),
                old(self).next_variable(),
                symbol@,
            ),
    {
        if let Some(x) = self.symbol_table.address(symbol.as_str()) {
            decimal_text(*x)
        } else if parse_number(symbol.as_str()).is_none() {
            let a = self.symbol_table.add_variable(symbol);
            decimal_text(a)
        } else {
            symbol
        }
    }
}

/// Assembles a whole program: the label scan, then the translation.
pub fn assemble(program: Vec<String>) -> (r: Result<String, AsmError>)
    requires
        program@.len() <= MAX_LINES,
    ensures
        text_result(r) == assembled(program@.map_values(|l: String| l@)),
{
    let run = Assembler::new(program);
    let run = run.fill_symbol_table()?;
    run.compile()
}

} // verus!
