use sha2::Digest;
use zkeval::fib::fibonacci;
use zkeval::hashchain::sha2_chain;
use zkeval::ids::{HashFnId, ProgramId, ProverId};
use zkeval::timing::time_operation;

#[test]
fn program_ids_name_their_programs() {
    assert_eq!(ProgramId::Loop.to_string(), "loop");
    assert_eq!(ProgramId::Fibonacci.to_string(), "fibonacci");
    assert_eq!(ProgramId::SSZWithdrawals.to_string(), "ssz-withdrawals");
    assert_eq!(ProgramId::Tendermint.to_string(), "tendermint");
    assert_eq!(ProgramId::Sha2Chain.to_string(), "sha2-chain");
    assert_eq!(ProgramId::Reth.to_string(), "reth");
    assert_eq!(ProgramId::Keccak.to_string(), "keccak");
    assert_eq!(ProgramId::Brainfuck.to_string(), "brainfuck");
    assert_eq!(ProgramId::BrainfuckAsm.to_string(), "brainfuck-asm");
    assert_eq!(ProgramId::BrainfuckCompiler.to_string(), "brainfuck-compiler");
}

#[test]
fn prover_ids_name_their_provers() {
    assert_eq!(ProverId::Risc0.to_string(), "risc0");
    assert_eq!(ProverId::SP1.to_string(), "sp1");
    assert_eq!(ProverId::JoltZkvm.to_string(), "jolt-zkvm");
    assert_eq!(ProverId::PowdrEstark.to_string(), "powdr-estark");
    assert_eq!(ProverId::PowdrPlonky3.to_string(), "powdr-plonky3");
}

#[test]
fn hash_fn_ids_name_their_hash_functions() {
    assert_eq!(HashFnId::Sha256.to_string(), "sha-256");
    assert_eq!(HashFnId::Poseidon.to_string(), "poseidon");
    assert_eq!(HashFnId::Blake3.to_string(), "blake3");
    assert_eq!(HashFnId::Keccak256.to_string(), "keccak256");
}

#[test]
fn fibonacci_is_reduced_modulo_7919() {
    assert_eq!(fibonacci(0), 1);
    assert_eq!(fibonacci(1), 1);
    assert_eq!(fibonacci(2), 2);
    assert_eq!(fibonacci(3), 3);
    assert_eq!(fibonacci(4), 5);
    assert_eq!(fibonacci(10), 89);
    // 17711 is the first Fibonacci number above the modulus.
    assert_eq!(fibonacci(21), 17711 % 7919);
}

#[test]
fn time_operation_returns_the_operation_result() {
    let (value, duration) = time_operation(|| fibonacci(10));
    assert_eq!(value, 89);
    let _ = duration.as_secs_f64();
}

#[test]
fn zero_iterations_leave_the_block_unchanged() {
    let input = [5u8; 32];
    assert_eq!(sha2_chain(input, 0), input);
}

#[test]
fn one_iteration_matches_a_direct_digest() {
    let input = [5u8; 32];
    let chained = sha2_chain(input, 1);
    let mut hasher = sha2::Sha256::new();
    hasher.update(input);
    let direct: [u8; 32] = hasher.finalize().into();
    assert_eq!(chained, direct);
    assert_ne!(chained, input);
}

#[test]
fn chaining_composes() {
    let input = [5u8; 32];
    let twice = sha2_chain(input, 2);
    let step_by_step = sha2_chain(sha2_chain(input, 1), 1);
    assert_eq!(twice, step_by_step);
    assert_ne!(twice, sha2_chain(input, 1));
}
