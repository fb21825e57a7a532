use bytecode::{Chunk, ChunkReadError, Constant, Op, OpError};

fn all_ops() -> Vec<Op> {
    vec![
        Op::Return,
        Op::Pop,
        Op::PopN(3),
        Op::Constant(255),
        Op::Nil,
        Op::False,
        Op::True,
        Op::Call(2),
        Op::Index,
        Op::Func(1),
        Op::LocalGet(0),
        Op::LocalSet(9),
        Op::GlobalDefine(4),
        Op::GlobalGet(5),
        Op::GlobalSet(6),
        Op::Not,
        Op::Eq,
        Op::Ne,
        Op::Gt,
        Op::Ge,
        Op::Lt,
        Op::Le,
        Op::Neg,
        Op::Add,
        Op::Sub,
        Op::Mul,
        Op::Div,
        Op::Rem,
        Op::Jump(13),
        Op::JumpFalsePeek(-1),
        Op::JumpFalsePop(i16::MIN),
        Op::JumpTruePeek(i16::MAX),
        Op::JumpTruePop(0),
    ]
}

#[test]
fn op_round_trip_all_kinds() {
    for op in all_ops() {
        let bytes = op.to_bytes();
        assert_eq!(bytes.len(), op.size_bytes());
        assert_eq!(Op::scan(&bytes), Ok(Some(op)));
    }
}

#[test]
fn op_round_trip_ignores_trailing_bytes() {
    for op in all_ops() {
        let mut bytes = op.to_bytes();
        bytes.extend([0xaa, 0xbb, 0xcc]);
        assert_eq!(Op::scan(&bytes), Ok(Some(op)));
    }
}

#[test]
fn op_exact_encodings() {
    assert_eq!(Op::Return.to_bytes(), vec![0x00]);
    assert_eq!(Op::Pop.to_bytes(), vec![0x01]);
    assert_eq!(Op::PopN(9).to_bytes(), vec![0x02, 9]);
    assert_eq!(Op::Constant(7).to_bytes(), vec![0x03, 7]);
    assert_eq!(Op::Call(2).to_bytes(), vec![0x10, 2]);
    assert_eq!(Op::GlobalSet(0).to_bytes(), vec![0x24, 0]);
    assert_eq!(Op::Rem.to_bytes(), vec![0x3c]);
    assert_eq!(Op::Jump(13).to_bytes(), vec![0x60, 0x00, 0x0d]);
    assert_eq!(Op::Jump(-2).to_bytes(), vec![0x60, 0xff, 0xfe]);
    assert_eq!(Op::JumpTruePop(0x0102).to_bytes(), vec![0x64, 0x01, 0x02]);
}

#[test]
fn scan_empty_buffer_is_end_of_stream() {
    assert_eq!(Op::scan(&[]), Ok(None));
}

#[test]
fn scan_unknown_opcodes() {
    for tag in [0x07u8, 0x13, 0x25, 0x2f, 0x3d, 0x5f, 0x65, 0xff] {
        assert_eq!(Op::scan(&[tag]), Err(OpError::UnknownOpcode { opcode: tag }));
    }
}

#[test]
fn scan_truncated_byte_operand() {
    assert_eq!(
        Op::scan(&[0x03]),
        Err(OpError::MissingByte { op: Op::Constant(0), b: 1 })
    );
    assert_eq!(
        Op::scan(&[0x02]),
        Err(OpError::MissingByte { op: Op::PopN(0), b: 1 })
    );
}

#[test]
fn scan_truncated_jump_operand() {
    assert_eq!(
        Op::scan(&[0x60]),
        Err(OpError::MissingByte { op: Op::Jump(0), b: 1 })
    );
    assert_eq!(
        Op::scan(&[0x60, 0x01]),
        Err(OpError::MissingByte { op: Op::Jump(0), b: 2 })
    );
    assert_eq!(
        Op::scan(&[0x62, 0x01]),
        Err(OpError::MissingByte { op: Op::JumpFalsePop(0), b: 2 })
    );
}

#[test]
fn scan_truncated_encodings_of_all_operand_ops() {
    for op in all_ops() {
        let mut bytes = op.to_bytes();
        if bytes.len() < 2 {
            continue;
        }
        bytes.pop();
        match Op::scan(&bytes) {
            Err(OpError::MissingByte { b, .. }) => assert_eq!(b, bytes.len()),
            other => panic!("expected MissingByte, got {:?}", other),
        }
    }
}

#[test]
fn push_appends_encoded_instructions() {
    let mut chunk = Chunk::default();
    chunk.push(Op::Add);
    chunk.push(Op::Constant(3));
    chunk.push(Op::Jump(-1));
    assert_eq!(chunk.code, vec![0x38, 0x03, 0x03, 0x60, 0xff, 0xff]);
}

#[test]
fn add_constant_returns_consecutive_indices() {
    let mut chunk = Chunk::default();
    let a = chunk.add_constant(Constant::Integer(5));
    let b = chunk.add_constant(Constant::Integer(5));
    let c = chunk.add_constant(Constant::String("dup".to_string()));
    assert_eq!((a, b, c), (0, 1, 2));
    // constants are not deduplicated
    assert_eq!(
        chunk.constants,
        vec![
            Constant::Integer(5),
            Constant::Integer(5),
            Constant::String("dup".to_string()),
        ]
    );
}

#[test]
fn constant_pool_fills_to_capacity_without_wrapping() {
    let mut chunk = Chunk::default();
    for i in 0..255u32 {
        let idx = chunk.add_constant(Constant::Integer(i as u64));
        assert_eq!(idx as u32, i);
    }
    assert_eq!(chunk.constants.len(), 255);
}

#[test]
fn make_global_same_name_twice_returns_same_index() {
    let mut chunk = Chunk::default();
    let first = chunk.make_global("x".to_string());
    let second = chunk.make_global("x".to_string());
    assert_eq!(first, 0);
    assert_eq!(second, 0);
    assert_eq!(chunk.globals, vec!["x".to_string()]);
}

#[test]
fn make_global_dedup_scenario() {
    let mut chunk = Chunk::default();
    assert_eq!(chunk.make_global("a".to_string()), 0);
    assert_eq!(chunk.make_global("b".to_string()), 1);
    assert_eq!(chunk.make_global("a".to_string()), 0);
    assert_eq!(chunk.make_global("c".to_string()), 2);
    assert_eq!(
        chunk.globals,
        vec!["a".to_string(), "b".to_string(), "c".to_string()]
    );
}

#[test]
fn define_global_emits_global_define() {
    let mut chunk = Chunk::default();
    let idx = chunk.define_global("answer".to_string());
    assert_eq!(idx, 0);
    assert_eq!(chunk.code, vec![0x22, 0]);
    let again = chunk.define_global("answer".to_string());
    assert_eq!(again, 0);
    assert_eq!(chunk.code, vec![0x22, 0, 0x22, 0]);
    assert_eq!(chunk.globals, vec!["answer".to_string()]);
}

#[test]
fn jump_patch_scenario() {
    let mut chunk = Chunk::default();
    let jump = chunk.prepare_jump(Op::Jump(0));
    for _ in 0..10 {
        chunk.push(Op::Pop);
    }
    chunk.set_jump_target(jump);
    assert_eq!(chunk.code.len(), 13);
    // 3 bytes for the jump itself + 10 bytes of body
    assert_eq!(chunk.code[1], 0x00);
    assert_eq!(chunk.code[2], 13);
    assert_eq!(Op::scan(&chunk.code), Ok(Some(Op::Jump(13))));
}

#[test]
fn jump_patch_conditional_variant() {
    let mut chunk = Chunk::default();
    chunk.push(Op::True);
    let jump = chunk.prepare_jump(Op::JumpFalsePop(0));
    chunk.push(Op::Constant(0));
    chunk.push(Op::Pop);
    chunk.set_jump_target(jump);
    // distance: 3 (the jump) + 2 (Constant) + 1 (Pop) = 6
    assert_eq!(Op::scan(&chunk.code[1..]), Ok(Some(Op::JumpFalsePop(6))));
}

#[test]
fn iter_code_walks_offsets_and_instructions() {
    let mut chunk = Chunk::default();
    chunk.push(Op::Constant(0));
    chunk.push(Op::Jump(3));
    chunk.push(Op::Add);
    chunk.push(Op::Return);
    let mut it = chunk.iter_code();
    assert_eq!(it.next(), Some(Ok((0, Op::Constant(0)))));
    assert_eq!(it.next(), Some(Ok((2, Op::Jump(3)))));
    assert_eq!(it.next(), Some(Ok((5, Op::Add))));
    assert_eq!(it.next(), Some(Ok((6, Op::Return))));
    assert_eq!(it.next(), None);
    assert_eq!(it.next(), None);
}

#[test]
fn iter_code_stops_permanently_on_error() {
    let chunk = Chunk {
        constants: vec![],
        globals: vec![],
        code: vec![0x03],
    };
    let mut it = chunk.iter_code();
    assert_eq!(
        it.next(),
        Some(Err(OpError::MissingByte { op: Op::Constant(0), b: 1 }))
    );
    assert_eq!(it.next(), None);
    assert_eq!(it.next(), None);
}

#[test]
fn iter_code_does_not_resynchronize_after_unknown_opcode() {
    let chunk = Chunk {
        constants: vec![],
        globals: vec![],
        code: vec![0xff, 0x00],
    };
    let mut it = chunk.iter_code();
    assert_eq!(it.next(), Some(Err(OpError::UnknownOpcode { opcode: 0xff })));
    // the valid Return byte after the error is never reached
    assert_eq!(it.next(), None);
}

#[test]
fn write_empty_chunk_exact_bytes() {
    let chunk = Chunk::default();
    assert_eq!(chunk.write(), vec![0u8; 24]);
}

#[test]
fn serialization_round_trip() {
    let mut chunk = Chunk::default();
    chunk.add_constant(Constant::Integer(42));
    chunk.add_constant(Constant::Float(2.5f64.to_bits()));
    chunk.add_constant(Constant::String("héllo, wörld".to_string()));
    chunk.make_global("a".to_string());
    chunk.make_global("π".to_string());
    chunk.push(Op::Constant(0));
    chunk.push(Op::GlobalGet(1));
    chunk.push(Op::Add);
    chunk.push(Op::Return);
    let bytes = chunk.write();
    let back = Chunk::read(&bytes).expect("round trip must parse");
    assert_eq!(back, chunk);
}

#[test]
fn serialization_round_trip_empty_chunk() {
    let chunk = Chunk::default();
    let back = Chunk::read(&chunk.write()).expect("empty chunk must parse");
    assert_eq!(back, chunk);
}

#[test]
fn read_rejects_trailing_bytes() {
    let mut chunk = Chunk::default();
    chunk.add_constant(Constant::Integer(1));
    chunk.push(Op::Return);
    let mut bytes = chunk.write();
    bytes.push(0x99);
    assert_eq!(
        Chunk::read(&bytes),
        Err(ChunkReadError::ExtraBytes(vec![0x99]))
    );
}

#[test]
fn read_reports_the_exact_trailing_suffix() {
    let chunk = Chunk::default();
    let mut bytes = chunk.write();
    let suffix = vec![1u8, 2, 3, 4];
    bytes.extend(&suffix);
    assert_eq!(Chunk::read(&bytes), Err(ChunkReadError::ExtraBytes(suffix)));
}

#[test]
fn read_rejects_malformed_input() {
    assert_eq!(Chunk::read(&[1, 2, 3]), Err(ChunkReadError::Deserialize));
    assert_eq!(Chunk::read(&[]), Err(ChunkReadError::Deserialize));
    // a constant with an undefined tag byte
    let mut bytes = vec![0u8; 24];
    bytes[0] = 1; // one constant
    bytes[8] = 9; // bogus constant tag
    assert_eq!(Chunk::read(&bytes), Err(ChunkReadError::Deserialize));
}

#[test]
fn read_rejects_truncated_input() {
    let mut chunk = Chunk::default();
    chunk.add_constant(Constant::String("abc".to_string()));
    chunk.push(Op::Return);
    let mut bytes = chunk.write();
    bytes.pop();
    assert_eq!(Chunk::read(&bytes), Err(ChunkReadError::Deserialize));
}

#[test]
fn read_rejects_invalid_utf8_in_strings() {
    let mut chunk = Chunk::default();
    chunk.make_global("ab".to_string());
    let mut bytes = chunk.write();
    // the two name bytes sit at the end of the buffer, before the empty
    // length-prefixed code section (8 zero bytes)
    let n = bytes.len();
    bytes[n - 10] = 0xff;
    bytes[n - 9] = 0xfe;
    assert_eq!(Chunk::read(&bytes), Err(ChunkReadError::Deserialize));
}

#[test]
fn end_to_end_scenario() {
    let mut chunk = Chunk::default();
    let five = chunk.add_constant(Constant::Integer(5));
    let three = chunk.add_constant(Constant::Integer(3));
    chunk.push(Op::Constant(five));
    chunk.push(Op::Constant(three));
    chunk.push(Op::Add);
    chunk.push(Op::Return);

    let bytes = chunk.write();
    let back = Chunk::read(&bytes).expect("serialized chunk must parse");

    let mut decoded = Vec::new();
    let mut it = back.iter_code();
    while let Some(item) = it.next() {
        decoded.push(item.expect("code must decode"));
    }
    assert_eq!(
        decoded,
        vec![
            (0, Op::Constant(0)),
            (2, Op::Constant(1)),
            (4, Op::Add),
            (5, Op::Return),
        ]
    );
}

#[test]
fn write_then_read_helper_returns_equal_chunk() {
    let mut chunk = Chunk::default();
    chunk.add_constant(Constant::String("s".to_string()));
    chunk.make_global("g".to_string());
    chunk.push(Op::Return);
    assert_eq!(chunk.write_then_read(), chunk);
}

#[test]
fn write_with_trailing_helper_reports_the_suffix() {
    let chunk = Chunk::default();
    let suffix = vec![7u8, 8];
    assert_eq!(
        chunk.write_with_trailing(&suffix),
        Err(ChunkReadError::ExtraBytes(suffix))
    );
}
