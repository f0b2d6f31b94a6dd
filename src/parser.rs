//! The instruction parser: walks the source lines, skipping blanks and
//! comments, and takes the current instruction apart.
use vstd::prelude::*;

use crate::error::{text_result, AsmError};
use crate::text::{
    contains_char, find_first, find_last, first_pos, last_pos, lemma_first_pos, lemma_last_pos,
    remove_blanks, strip_blanks, trim_end, trim_end_index, trim_start, trim_start_index,
};

verus! {

/// The longest program that the 32-bit counters can follow.
pub const MAX_LINES: usize = 4294967279;

/// The three shapes of an instruction.
#[derive(Debug, Clone, Copy, PartialEq, Eq, Structural)]
pub enum InstructionType {
    /// `@SYMBOL` or `@NUMBER`.
    A,
    /// `[dest=]comp[;jump]`.
    C,
    /// `(SYMBOL)`.
    L,
}

/// A source line with its blanks taken out.
pub open spec fn clean(line: Seq<char>) -> Seq<char> {
    strip_blanks(line)
}

/// A line that holds no instruction: empty once cleaned, or a `//` comment.
pub open spec fn is_skipped(line: Seq<char>) -> bool {
    let c = clean(line);
    c.len() == 0 || (c.len() >= 2 && c[0] == '/' && c[1] == '/')
}

/// The first line at or after `from` that holds an instruction, or the
/// number of lines where none does.
pub open spec fn next_real(lines: Seq<Seq<char>>, from: int) -> int
    decreases lines.len() - from,
{
    if from < 0 || from >= lines.len() {
        lines.len() as int
    } else if is_skipped(lines[from]) {
        next_real(lines, from + 1)
    } else {
        from
    }
}

/// A cleaned instruction that defines a label.
pub open spec fn is_label(s: Seq<char>) -> bool {
    s.len() > 0 && s[0] == '('
}

/// The shape of a cleaned instruction, if it has one.
pub open spec fn classify(s: Seq<char>) -> Option<InstructionType> {
    if s.len() > 0 && s[0] == '@' {
        Some(InstructionType::A)
    } else if is_label(s) {
        Some(InstructionType::L)
    } else if s.contains('=') || s.contains(';') {
        Some(InstructionType::C)
    } else {
        None
    }
}

/// The shape of the current instruction, or why there is none.
pub open spec fn kind_of(cur: Option<Seq<char>>) -> Result<InstructionType, AsmError> {
    match cur {
        None => Err(AsmError::NoInstruction),
        Some(s) => match classify(s) {
            Some(k) => Ok(k),
            None => Err(AsmError::InvalidInstruction),
        },
    }
}

/// The symbol of an address instruction.
pub open spec fn address_name(s: Seq<char>) -> Seq<char> {
    trim_start(s, '@')
}

/// The symbol of a label instruction.
pub open spec fn label_name(s: Seq<char>) -> Seq<char> {
    trim_end(trim_start(s, '('), ')')
}

/// What comes before the first `=`, or nothing.
pub open spec fn dest_field(s: Seq<char>) -> Seq<char> {
    let e = first_pos(s, '=');
    if e < s.len() {
        s.subrange(0, e)
    } else {
        Seq::empty()
    }
}

/// What stands between the first `=` and the `;` after it; with no `=`,
/// what comes before the first `;`.
pub open spec fn comp_field(s: Seq<char>) -> Option<Seq<char>> {
    let e = first_pos(s, '=');
    if e < s.len() {
        let rest = s.subrange(e + 1, s.len() as int);
        Some(rest.subrange(0, first_pos(rest, ';')))
    } else if s.contains(';') {
        Some(s.subrange(0, first_pos(s, ';')))
    } else {
        None
    }
}

/// What comes after the last `;`, or nothing.
pub open spec fn jump_field(s: Seq<char>) -> Seq<char> {
    let l = last_pos(s, ';');
    if l >= 0 {
        s.subrange(l + 1, s.len() as int)
    } else {
        Seq::empty()
    }
}

/// The symbol of the current instruction, or why it has none.
pub open spec fn symbol_result(cur: Option<Seq<char>>) -> Result<Seq<char>, AsmError> {
    match kind_of(cur) {
        Err(e) => Err(e),
        Ok(InstructionType::A) => Ok(address_name(cur.unwrap())),
        Ok(InstructionType::L) => Ok(label_name(cur.unwrap())),
        Ok(InstructionType::C) => Err(AsmError::WrongInstructionType),
    }
}

/// The current instruction where it is a compute instruction.
pub open spec fn compute_text(cur: Option<Seq<char>>) -> Result<Seq<char>, AsmError> {
    match kind_of(cur) {
        Err(e) => Err(e),
        Ok(InstructionType::C) => Ok(cur.unwrap()),
        Ok(_) => Err(AsmError::WrongInstructionType),
    }
}

/// The destination part of the current instruction, or why it has none.
pub open spec fn dest_result(cur: Option<Seq<char>>) -> Result<Seq<char>, AsmError> {
    match compute_text(cur) {
        Err(e) => Err(e),
        Ok(s) => Ok(dest_field(s)),
    }
}

/// The computation part of the current instruction, or why it has none.
pub open spec fn comp_result(cur: Option<Seq<char>>) -> Result<Seq<char>, AsmError> {
    match compute_text(cur) {
        Err(e) => Err(e),
        Ok(s) => match comp_field(s) {
            Some(c) => Ok(c),
            None => Err(AsmError::MissingComp),
        },
    }
}

/// The jump part of the current instruction, or why it has none.
pub open spec fn jump_result(cur: Option<Seq<char>>) -> Result<Seq<char>, AsmError> {
    match compute_text(cur) {
        Err(e) => Err(e),
        Ok(s) => Ok(jump_field(s)),
    }
}

/// The cleaned instructions of a program, in order: every line but the
/// blank and comment lines.
pub open spec fn instructions(lines: Seq<Seq<char>>) -> Seq<Seq<char>>
    decreases lines.len(),
{
    if lines.len() == 0 {
        Seq::empty()
    } else if is_skipped(lines.last()) {
        instructions(lines.drop_last())
    } else {
        instructions(lines.drop_last()).push(clean(lines.last()))
    }
}

/// How many instructions other than labels `instrs` holds.
pub open spec fn non_labels(instrs: Seq<Seq<char>>) -> nat
    decreases instrs.len(),
{
    if instrs.len() == 0 {
        0
    } else {
        non_labels(instrs.drop_last()) + if classify(instrs.last()) == Some(InstructionType::L) {
            0nat
        } else {
            1nat
        }
    }
}

/// What `next_real` means: the lines it passes over are all skipped.
pub proof fn lemma_next_real(lines: Seq<Seq<char>>, from: int)
    requires
        0 <= from <= lines.len(),
    ensures
        from <= next_real(lines, from) <= lines.len(),
        forall|j: int| from <= j < next_real(lines, from) ==> is_skipped(#[trigger] lines[j]),
        next_real(lines, from) < lines.len() ==> !is_skipped(lines[next_real(lines, from)]),
    decreases lines.len() - from,
{
    if from < lines.len() && is_skipped(lines[from]) {
        lemma_next_real(lines, from + 1);
    }
}

/// Skipped lines add no instruction.
pub proof fn lemma_skipped_lines(lines: Seq<Seq<char>>, i: int, j: int)
    requires
        0 <= i <= j <= lines.len(),
        forall|k: int| i <= k < j ==> is_skipped(#[trigger] lines[k]),
    ensures
        instructions(lines.subrange(0, j)) == instructions(lines.subrange(0, i)),
    decreases j - i,
{
    if i < j {
        lemma_skipped_lines(lines, i, j - 1);
        assert(lines.subrange(0, j).drop_last() =~= lines.subrange(0, j - 1));
        assert(is_skipped(lines[j - 1]));
    }
}

/// What one `advance` from line `pos` does to the instructions seen.
pub proof fn lemma_advance(lines: Seq<Seq<char>>, pos: int)
    requires
        0 <= pos < lines.len(),
    ensures
        pos <= next_real(lines, pos) <= lines.len(),
        next_real(lines, pos) < lines.len() ==> {
            let p = next_real(lines, pos);
            &&& !is_skipped(lines[p])
            &&& instructions(lines.subrange(0, p + 1)) == instructions(
                lines.subrange(0, pos),
            ).push(clean(lines[p]))
        },
        next_real(lines, pos) == lines.len() ==> instructions(lines.subrange(0, lines.len() as int))
            == instructions(lines.subrange(0, pos)),
{
    lemma_next_real(lines, pos);
    let p = next_real(lines, pos);
    lemma_skipped_lines(lines, pos, p);
    if p < lines.len() {
        assert(lines.subrange(0, p + 1).drop_last() =~= lines.subrange(0, p));
        assert(lines.subrange(0, p + 1).last() == lines[p]);
    } else {
        assert(lines.subrange(0, lines.len() as int) =~= lines);
    }
}

/// A cursor over the lines of a program.
pub struct Parser {
    program: Vec<String>,
    next_line: usize,
    current_instruction: Option<String>,
    instruction_index: u32,
}

impl Parser {
    /// The program's lines.
    pub closed spec fn lines(&self) -> Seq<Seq<char>> {
        self.program@.map_values(|l: String| l@)
    }

    /// How many lines have been consumed.
    pub closed spec fn position(&self) -> int {
        self.next_line as int
    }

    /// The current instruction, cleaned.
    pub closed spec fn current(&self) -> Option<Seq<char>> {
        match self.current_instruction {
            Some(s) => Some(s@),
            None => None,
        }
    }

    /// How many instructions other than labels have been reached.
    pub closed spec fn index(&self) -> nat {
        self.instruction_index as nat
    }

    /// The index counts the instructions other than labels among the lines
    /// consumed so far. A new or restarted parser keeps this, and every
    /// `advance` keeps it, so at a label reached after `k` other
    /// instructions the index is `k`.
    pub open spec fn index_counts(&self) -> bool {
        self.index() == non_labels(instructions(self.lines().subrange(0, self.position())))
    }

    /// The cursor stays within the lines, and the counters within 32 bits.
    pub closed spec fn wf(&self) -> bool {
        &&& self.instruction_index <= self.next_line
        &&& self.next_line <= self.program@.len()
        &&& self.program@.len() <= MAX_LINES
    }

    /// The bounds that a well-formed parser keeps.
    pub proof fn lemma_bounds(&self)
        requires
            self.wf(),
        ensures
            self.index() <= self.position() <= self.lines().len() <= MAX_LINES,
    {
    }

    /// A parser at the start of `program`.
    pub fn new(program: Vec<String>) -> (r: Parser)
        requires
            program@.len() <= MAX_LINES,
        ensures
            r.wf(),
            r.lines() == program@.map_values(|l: String| l@),
            r.position() == 0,
            r.current() == None::<Seq<char>>,
            r.index() == 0,
            r.index_counts(),
    {
        let r = Parser { program, next_line: 0, current_instruction: None, instruction_index: 0 };
        assert(r.lines().subrange(0, 0) =~= Seq::<Seq<char>>::empty());
        r
    }

    /// A parser at the start of the same lines.
    pub fn restarted(&self) -> (r: Parser)
        requires
            self.wf(),
        ensures
            r.wf(),
            r.lines() == self.lines(),
            r.position() == 0,
            r.current() == None::<Seq<char>>,
            r.index() == 0,
            r.index_counts(),
    {
        let mut copy: Vec<String> = Vec::new();
        let mut i: usize = 0;
        while i < self.program.len()
            invariant
                self.wf(),
                i <= self.program@.len(),
                copy@ == self.program@.subrange(0, i as int),
            decreases self.program@.len() - i,
        {
            copy.push(self.program[i].clone());
            i = i + 1;
            assert(copy@ =~= self.program@.subrange(0, i as int));
        }
        assert(copy@ =~= self.program@);
        let r = Parser { program: copy, next_line: 0, current_instruction: None, instruction_index: 0 };
        assert(r.lines().subrange(0, 0) =~= Seq::<Seq<char>>::empty());
        r
    }

    /// Whether lines remain to be consumed.
    pub fn has_more_lines(&mut self) -> (r: bool)
        ensures
            *final(self) == *old(self),
            r == (old(self).position() < old(self).lines().len()),
    {
        self.next_line < self.program.len()
    }

    /// Whether `line` holds no instruction.
    fn skipped_line(line: &str) -> (r: bool)
        ensures
            r == is_skipped(line@),
    {
        let c = remove_blanks(line);
        let n = c.as_str().unicode_len();
        n == 0 || (n >= 2 && c.as_str().get_char(0) == '/' && c.as_str().get_char(1) == '/')
    }

    /// Moves to the next line that holds an instruction and makes it the
    /// current one, or leaves none current where no such line remains.
    pub fn advance(&mut self)
        requires
            old(self).wf(),
        ensures
            final(self).wf(),
            final(self).lines() == old(self).lines(),
            old(self).index_counts() ==> final(self).index_counts(),
            ({
                let p = next_real(old(self).lines(), old(self).position());
                if p < old(self).lines().len() {
                    &&& final(self).current() == Some(clean(old(self).lines()[p]))
                    &&& final(self).position() == p + 1
                    &&& final(self).index() == old(self).index() + if is_label(
                        clean(old(self).lines()[p]),
                    ) {
                        0nat
                    } else {
                        1nat
                    }
                } else {
                    &&& final(self).current() == None::<Seq<char>>
                    &&& final(self).position() == old(self).lines().len()
                    &&& final(self).index() == old(self).index()
                }
            }),
    {
        let ghost start = self.next_line as int;
        proof {
            if start < self.lines().len() {
                lemma_advance(self.lines(), start);
                let p = next_real(self.lines(), start);
                if p < self.lines().len() {
                    let now = instructions(self.lines().subrange(0, start)).push(
                        clean(self.lines()[p]),
                    );
                    assert(now.drop_last() =~= instructions(self.lines().subrange(0, start)));
                }
            }
        }
        while self.next_line < self.program.len() && Self::skipped_line(
            self.program[self.next_line].as_str(),
        )
            invariant
                self.wf(),
                self.program == old(self).program,
                self.instruction_index == old(self).instruction_index,
                start <= self.next_line,
                next_real(self.lines(), start) == next_real(self.lines(), self.next_line as int),
            decreases self.program@.len() - self.next_line,
        {
            self.next_line = self.next_line + 1;
        }
        if self.next_line < self.program.len() {
            let line = remove_blanks(self.program[self.next_line].as_str());
            let n = line.as_str().unicode_len();
            let label = n > 0 && line.as_str().get_char(0) == '(';
            self.current_instruction = Some(line);
            self.next_line = self.next_line + 1;
            if !label {
                self.instruction_index = self.instruction_index + 1;
            }
        } else {
            self.current_instruction = None;
        }
    }

    /// The current text, or an error where there is none.
    fn current_instruction(&self) -> (r: Result<&str, AsmError>)
        ensures
            match r {
                Ok(s) => self.current() == Some(s@),
                Err(e) => self.current() == None::<Seq<char>> && e == AsmError::NoInstruction,
            },
    {
        match &self.current_instruction {
            Some(s) => Ok(s.as_str()),
            None => Err(AsmError::NoInstruction),
        }
    }

    /// The shape of the current instruction.
    pub fn instruction_type(&self) -> (r: Result<InstructionType, AsmError>)
        ensures
            r == kind_of(self.current()),
    {
        let s = self.current_instruction()?;
        let n = s.unicode_len();
        if n > 0 && s.get_char(0) == '@' {
            Ok(InstructionType::A)
        } else if n > 0 && s.get_char(0) == '(' {
            Ok(InstructionType::L)
        } else if contains_char(s, '=') || contains_char(s, ';') {
            Ok(InstructionType::C)
        } else {
            Err(AsmError::InvalidInstruction)
        }
    }

    /// The symbol of the current address or label instruction.
    pub fn symbol(&self) -> (r: Result<String, AsmError>)
        ensures
            text_result(r) == symbol_result(self.current()),
    {
        let kind = self.instruction_type()?;
        let s = self.current_instruction()?;
        match kind {
            InstructionType::A => {
                let a = trim_start_index(s, '@');
                Ok(String::from_str(s.substring_char(a, s.unicode_len())))
            },
            InstructionType::L => {
                let a = trim_start_index(s, '(');
                let b = trim_end_index(s, a, ')');
                Ok(String::from_str(s.substring_char(a, b)))
            },
            InstructionType::C => Err(AsmError::WrongInstructionType),
        }
    }

    /// Fails unless the current instruction has the shape `expected`.
    fn assert_current_instruction(&self, expected: InstructionType) -> (r: Result<(), AsmError>)
        ensures
            r == match kind_of(self.current()) {
                Err(e) => Err(e),
                Ok(k) => if k == expected {
                    Ok(())
                } else {
                    Err(AsmError::WrongInstructionType)
                },
            },
    {
        let kind = self.instruction_type()?;
        if kind == expected {
            Ok(())
        } else {
            Err(AsmError::WrongInstructionType)
        }
    }

    /// The destination part of the current compute instruction.
    pub fn dest(&self) -> (r: Result<String, AsmError>)
        ensures
            text_result(r) == dest_result(self.current()),
    {
        self.assert_current_instruction(InstructionType::C)?;
        let s = self.current_instruction()?;
        let e = find_first(s, '=');
        proof {
            lemma_first_pos(s@, '=');
        }
        if e < s.unicode_len() {
            Ok(String::from_str(s.substring_char(0, e)))
        } else {
            Ok(String::new())
        }
    }

    /// The computation part of the current compute instruction.
    pub fn comp(&self) -> (r: Result<String, AsmError>)
        ensures
            text_result(r) == comp_result(self.current()),
    {
        self.assert_current_instruction(InstructionType::C)?;
        let s = self.current_instruction()?;
        let n = s.unicode_len();
        let e = find_first(s, '=');
        proof {
            lemma_first_pos(s@, '=');
            lemma_first_pos(s@, ';');
        }
        if e < n {
            let rest = s.substring_char(e + 1, n);
            let j = find_first(rest, ';');
            proof {
                lemma_first_pos(rest@, ';');
            }
            Ok(String::from_str(rest.substring_char(0, j)))
        } else {
            let j = find_first(s, ';');
            if j < n {
                Ok(String::from_str(s.substring_char(0, j)))
            } else {
                Err(AsmError::MissingComp)
            }
        }
    }

    /// The jump part of the current compute instruction.
    pub fn jump(&self) -> (r: Result<String, AsmError>)
        ensures
            text_result(r) == jump_result(self.current()),
    {
        self.assert_current_instruction(InstructionType::C)?;
        let s = self.current_instruction()?;
        let n = s.unicode_len();
        proof {
            lemma_last_pos(s@, ';');
        }
        match find_last(s, ';') {
            Some(l) => Ok(String::from_str(s.substring_char(l + 1, n))),
            None => Ok(String::new()),
        }
    }

    /// How many instructions other than labels have been reached.
    pub fn instruction_index(&self) -> (r: u32)
        ensures
            r as nat == self.index(),
    {
        self.instruction_index
    }
}

} // verus!
