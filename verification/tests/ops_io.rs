use ecdlp_5_bit::circuit::{analyze_ops, BitId, Op, OperationType, QubitId, QubitOrBit, RegisterId};
use ecdlp_5_bit::ops_io::{
    artifact_header, encode_artifact, op_kind_from_u32, parse_artifact, ArtifactError, ArtifactFormat,
    OpSink, OpStats, VecOpSink, MAX_OPS,
};

fn gate(kind: OperationType, c2: u64, c1: u64, t: u64) -> Op {
    let mut op = Op::empty();
    op.kind = kind;
    op.q_control2 = QubitId(c2);
    op.q_control1 = QubitId(c1);
    op.q_target = QubitId(t);
    op
}

fn sample_ops() -> Vec<Op> {
    let mut reg = Op::empty();
    reg.kind = OperationType::AppendToRegister;
    reg.q_target = QubitId(0);
    reg.r_target = RegisterId(0);
    let mut close = Op::empty();
    close.kind = OperationType::Register;
    close.r_target = RegisterId(0);
    let mut store = Op::empty();
    store.kind = OperationType::BitStore1;
    store.c_target = BitId(2);
    vec![
        reg,
        close,
        gate(OperationType::X, u64::MAX, u64::MAX, 0),
        gate(OperationType::CX, u64::MAX, 0, 1),
        gate(OperationType::CCX, 0, 1, 5),
        store,
    ]
}

#[test]
fn raw_artifact_round_trips() {
    let ops = sample_ops();
    let bytes = encode_artifact(ArtifactFormat::Raw, &ops).unwrap();
    assert_eq!(bytes.len(), 16 + 56 * ops.len());
    assert_eq!(&bytes[..8], b"QECCOPS1");
    assert_eq!(parse_artifact(&bytes).unwrap(), ops);
}

#[test]
fn compressed_artifact_round_trips() {
    let ops = sample_ops();
    let bytes = encode_artifact(ArtifactFormat::Zstd, &ops).unwrap();
    assert_eq!(&bytes[..8], b"QECCOPSZ");
    assert_eq!(u64::from_le_bytes(bytes[8..16].try_into().unwrap()), ops.len() as u64);
    assert_eq!(parse_artifact(&bytes).unwrap(), ops);
}

#[test]
fn artifact_errors_are_reported() {
    let ops = sample_ops();
    assert_eq!(parse_artifact(b"QECC"), Err(ArtifactError::MissingMagic));
    assert_eq!(parse_artifact(b"QECCOPS1\x01\x00"), Err(ArtifactError::MissingCount));
    let mut bad = encode_artifact(ArtifactFormat::Raw, &ops).unwrap();
    bad[7] = b'X';
    assert_eq!(parse_artifact(&bad), Err(ArtifactError::BadMagic));
    let mut short = encode_artifact(ArtifactFormat::Raw, &ops).unwrap();
    short.pop();
    assert_eq!(
        parse_artifact(&short),
        Err(ArtifactError::LengthMismatch { actual: 16 + 56 * 6 - 1, expected: 16 + 56 * 6, count: 6 })
    );
    let huge = artifact_header(ArtifactFormat::Raw, MAX_OPS + 1);
    assert_eq!(parse_artifact(&huge), Err(ArtifactError::CountExceedsCap(MAX_OPS + 1)));
    let mut unknown = encode_artifact(ArtifactFormat::Raw, &ops).unwrap();
    unknown[16 + 56] = 99;
    assert_eq!(parse_artifact(&unknown), Err(ArtifactError::UnknownKind { index: 1, raw: 99 }));
    let mut invalid = encode_artifact(ArtifactFormat::Raw, &ops).unwrap();
    invalid[16 + 56 * 3 + 16] = 1;
    for b in &mut invalid[16 + 56 * 3 + 17..16 + 56 * 3 + 24] {
        *b = 0;
    }
    assert_eq!(parse_artifact(&invalid), Err(ArtifactError::InvalidOp(3)));
    let mut garbage = artifact_header(ArtifactFormat::Zstd, 1);
    garbage.extend_from_slice(&[1, 2, 3, 4]);
    assert_eq!(parse_artifact(&garbage), Err(ArtifactError::TruncatedOp(0)));
}

#[test]
fn compressed_artifact_reads_only_the_declared_records() {
    let empty = artifact_header(ArtifactFormat::Zstd, 0);
    assert_eq!(parse_artifact(&empty), Ok(vec![]));
    let ops = sample_ops();
    let mut bytes = encode_artifact(ArtifactFormat::Zstd, &ops).unwrap();
    let one = artifact_header(ArtifactFormat::Zstd, 1);
    bytes[..16].copy_from_slice(&one);
    bytes.extend_from_slice(&[9, 9, 9]);
    assert_eq!(parse_artifact(&bytes), Ok(ops[..1].to_vec()));
}

#[test]
fn kind_codes_decode() {
    assert_eq!(op_kind_from_u32(0), Some(OperationType::Neg));
    assert_eq!(op_kind_from_u32(13), Some(OperationType::CCX));
    assert_eq!(op_kind_from_u32(17), Some(OperationType::DebugPrint));
    assert_eq!(op_kind_from_u32(18), None);
}

#[test]
fn formats_have_their_magic_and_label() {
    assert_eq!(&ArtifactFormat::Raw.magic(), b"QECCOPS1");
    assert_eq!(&ArtifactFormat::Zstd.magic(), b"QECCOPSZ");
    assert_eq!(ArtifactFormat::Raw.label(), "QECCOPS1");
    assert_eq!(ArtifactFormat::Zstd.label(), "QECCOPSZ");
}

#[test]
fn stats_count_gates_and_qubits() {
    let mut sink = VecOpSink::default();
    for op in sample_ops() {
        sink.push_op(op);
    }
    let stats: OpStats = sink.stats();
    assert_eq!(stats.ops, 6);
    assert_eq!(stats.ccx, 1);
    assert_eq!(stats.ccz, 0);
    assert_eq!(stats.max_qubit, Some(5));
    assert_eq!(stats.qubits(), 6);
    assert_eq!(sink.into_ops(), sample_ops());
}

#[test]
fn analysis_finds_sizes_and_registers() {
    let (qubits, bits, regs, layout) = analyze_ops(&sample_ops());
    assert_eq!(qubits, 6);
    assert_eq!(bits, 3);
    assert_eq!(regs, 1);
    assert_eq!(layout, vec![vec![QubitOrBit::Qubit(QubitId(0))]]);
}
