use vstd::prelude::*;

verus! {

/// Why an assembly run stopped.
#[derive(Debug, Clone, Copy, PartialEq, Eq, Structural)]
pub enum AsmError {
    /// An instruction was expected but the source had no more of them.
    NoInstruction,
    /// A line matches none of the three instruction shapes.
    InvalidInstruction,
    /// A field was asked of an instruction of the wrong shape.
    WrongInstructionType,
    /// A compute instruction without a computation part.
    MissingComp,
    /// A computation mnemonic outside the fixed set.
    UnknownComp,
    /// A jump mnemonic outside the fixed set.
    UnknownJump,
    /// An address that is not a decimal number below 65536.
    InvalidAddress,
}

} // verus!

verus! {

/// The view of a textual result.
pub open spec fn text_result(r: Result<String, AsmError>) -> Result<Seq<char>, AsmError> {
    match r {
        Ok(s) => Ok(s@),
        Err(e) => Err(e),
    }
}

} // verus!
