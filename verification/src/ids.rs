use vstd::prelude::*;

verus! {

/// An identifier used to select the program to evaluate.
#[derive(Clone, Copy, Debug, PartialEq, Eq, Structural)]
pub enum ProgramId {
    Loop,
    Fibonacci,
    SSZWithdrawals,
    Tendermint,
    Sha2Chain,
    Reth,
    Keccak,
    Brainfuck,
    BrainfuckAsm,
    BrainfuckCompiler,
}

/// An identifier used to select the prover to evaluate.
#[derive(Clone, Copy, Debug, PartialEq, Eq, Structural)]
pub enum ProverId {
    Risc0,
    SP1,
    JoltZkvm,
    PowdrEstark,
    PowdrPlonky3,
}

/// An identifier used to select the hash function to evaluate.
#[derive(Clone, Copy, Debug, PartialEq, Eq, Structural)]
pub enum HashFnId {
    Sha256,
    Poseidon,
    Blake3,
    Keccak256,
}

impl ProgramId {
    /// The identifier's name, as used in paths and reports.
    pub open spec fn spec_str(self) -> Seq<char> {
        match self {
            ProgramId::Loop => "loop"@,
            ProgramId::Fibonacci => "fibonacci"@,
            ProgramId::SSZWithdrawals => "ssz-withdrawals"@,
            ProgramId::Tendermint => "tendermint"@,
            ProgramId::Sha2Chain => "sha2-chain"@,
            ProgramId::Reth => "reth"@,
            ProgramId::Keccak => "keccak"@,
            ProgramId::Brainfuck => "brainfuck"@,
            ProgramId::BrainfuckAsm => "brainfuck-asm"@,
            ProgramId::BrainfuckCompiler => "brainfuck-compiler"@,
        }
    }

    /// Convert the identifier to a string.
    pub fn to_string(&self) -> (r: String)
        ensures
            r@ == self.spec_str(),
    {
        match self {
            ProgramId::Loop => "loop".to_owned(),
            ProgramId::Fibonacci => "fibonacci".to_owned(),
            ProgramId::SSZWithdrawals => "ssz-withdrawals".to_owned(),
            ProgramId::Tendermint => "tendermint".to_owned(),
            ProgramId::Sha2Chain => "sha2-chain".to_owned(),
            ProgramId::Reth => "reth".to_owned(),
            ProgramId::Keccak => "keccak".to_owned(),
            ProgramId::Brainfuck => "brainfuck".to_owned(),
            ProgramId::BrainfuckAsm => "brainfuck-asm".to_owned(),
            ProgramId::BrainfuckCompiler => "brainfuck-compiler".to_owned(),
        }
    }
}

impl ProverId {
    /// The identifier's name, as used in paths and reports.
    pub open spec fn spec_str(self) -> Seq<char> {
        match self {
            ProverId::Risc0 => "risc0"@,
            ProverId::SP1 => "sp1"@,
            ProverId::JoltZkvm => "jolt-zkvm"@,
            ProverId::PowdrEstark => "powdr-estark"@,
            ProverId::PowdrPlonky3 => "powdr-plonky3"@,
        }
    }

    /// Convert the identifier to a string.
    pub fn to_string(&self) -> (r: String)
        ensures
            r@ == self.spec_str(),
    {
        match self {
            ProverId::Risc0 => "risc0".to_owned(),
            ProverId::SP1 => "sp1".to_owned(),
            ProverId::JoltZkvm => "jolt-zkvm".to_owned(),
            ProverId::PowdrEstark => "powdr-estark".to_owned(),
            ProverId::PowdrPlonky3 => "powdr-plonky3".to_owned(),
        }
    }
}

impl HashFnId {
    /// The identifier's name, as used in paths and reports.
    pub open spec fn spec_str(self) -> Seq<char> {
        match self {
            HashFnId::Sha256 => "sha-256"@,
            HashFnId::Poseidon => "poseidon"@,
            HashFnId::Blake3 => "blake3"@,
            HashFnId::Keccak256 => "keccak256"@,
        }
    }

    /// Convert the identifier to a string.
    pub fn to_string(&self) -> (r: String)
        ensures
            r@ == self.spec_str(),
    {
        match self {
            HashFnId::Sha256 => "sha-256".to_owned(),
            HashFnId::Poseidon => "poseidon".to_owned(),
            HashFnId::Blake3 => "blake3".to_owned(),
            HashFnId::Keccak256 => "keccak256".to_owned(),
        }
    }
}

} // verus!
