use vstd::prelude::*;

verus! {

/// The six side-effect-free surface instructions of the tape language.
#[derive(Clone, Copy, PartialEq, Eq, Structural, Debug)]
pub enum Instr {
    IncPtr,
    DecPtr,
    Inc,
    Dec,
    Output,
    Input,
}

/// The canonical surface character of an instruction.
pub open spec fn char_of(i: Instr) -> char {
    match i {
        Instr::IncPtr => '>',
        Instr::DecPtr => '<',
        Instr::Inc => '+',
        Instr::Dec => '-',
        Instr::Output => '.',
        Instr::Input => ',',
    }
}

impl Instr {
    /// Every instruction production the expansion step considers, in the
    /// fixed order in which branches are generated.
    pub fn all() -> (r: Vec<Instr>)
        ensures
            r@ == seq![
                Instr::IncPtr,
                Instr::DecPtr,
                Instr::Inc,
                Instr::Dec,
                Instr::Output,
                Instr::Input,
            ],
    {
        let mut v: Vec<Instr> = Vec::new();
        v.push(Instr::IncPtr);
        v.push(Instr::DecPtr);
        v.push(Instr::Inc);
        v.push(Instr::Dec);
        v.push(Instr::Output);
        v.push(Instr::Input);
        proof {
            assert(v@ =~= seq![
                Instr::IncPtr,
                Instr::DecPtr,
                Instr::Inc,
                Instr::Dec,
                Instr::Output,
                Instr::Input,
            ]);
        }
        v
    }

    pub fn to_char(self) -> (r: char)
        ensures
            r == char_of(self),
    {
        match self {
            Instr::IncPtr => '>',
            Instr::DecPtr => '<',
            Instr::Inc => '+',
            Instr::Dec => '-',
            Instr::Output => '.',
            Instr::Input => ',',
        }
    }
}

} // verus!
