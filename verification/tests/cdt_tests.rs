use aerospike_core::cdt::Buffer;
use aerospike_core::cdt::CdtArgument;
use aerospike_core::cdt::CdtContext;
use aerospike_core::cdt::CdtOperation;
use aerospike_core::cdt::EncodeError;
use aerospike_core::cdt::ParticleType;
use aerospike_core::value::Value;

const MAP_PUT: u8 = 0x42;

fn map_put_op(value: Value) -> CdtOperation {
    CdtOperation {
        op: MAP_PUT,
        args: vec![CdtArgument::Value(Value::Bytes(b"the-key".to_vec())), CdtArgument::Value(value)],
    }
}

#[test]
fn particle_type_is_blob() {
    let op = map_put_op(Value::Int(1));
    assert_eq!(op.particle_type(), ParticleType::Blob);
}

#[test]
fn estimate_equals_bytes_written_top_level() {
    let op = map_put_op(Value::Bytes(b"V".to_vec()));
    let ctx: Vec<CdtContext> = Vec::new();
    let estimated = op.estimate_size(&ctx).expect("representable");
    let mut buffer = Buffer::new();
    let written = op.write_to(&mut buffer, &ctx).expect("representable");
    assert_eq!(estimated, written);
    assert_eq!(buffer.len(), written);
    // empty context: the opcode is the very first byte on the wire
    assert_eq!(buffer.bytes[0], MAP_PUT);
}

#[test]
fn estimate_equals_bytes_written_for_every_argument_kind() {
    let op = CdtOperation {
        op: 0x07,
        args: vec![
            CdtArgument::Byte(0xaa),
            CdtArgument::Int(-2),
            CdtArgument::Bool(true),
            CdtArgument::Value(Value::Bool(false)),
            CdtArgument::List(vec![Value::Int(1), Value::Bytes(b"xy".to_vec())]),
            CdtArgument::Pairs(vec![(Value::Bytes(b"k".to_vec()), Value::Int(9))]),
        ],
    };
    let ctx = vec![CdtContext::ListIndex(4), CdtContext::MapKey(Value::Bytes(b"m".to_vec()))];
    let estimated = op.estimate_size(&ctx).expect("representable");
    let mut buffer = Buffer::new();
    let written = op.write_to(&mut buffer, &ctx).expect("representable");
    assert_eq!(estimated, written);
    assert_eq!(buffer.len(), written);
}

#[test]
fn nonempty_context_header_declares_step_count() {
    let op = map_put_op(Value::Int(5));
    let ctx = vec![
        CdtContext::ListIndex(0),
        CdtContext::ListIndex(3),
        CdtContext::MapKey(Value::Int(1)),
    ];
    let mut buffer = Buffer::new();
    op.write_to(&mut buffer, &ctx).expect("representable");
    // header: declared path length first, then the first step's marker
    assert_eq!(buffer.bytes[0], 3);
    assert_eq!(buffer.bytes[1], 0x10);

    // the same operation without a context: no header bytes at all
    let mut bare = Buffer::new();
    let n = op.write_to(&mut bare, &Vec::new()).expect("representable");
    let with_ctx_body = &buffer.bytes[buffer.bytes.len() - n..];
    assert_eq!(with_ctx_body, &bare.bytes[..]);
}

#[test]
fn exact_bytes_int_argument() {
    let op = CdtOperation { op: 0x01, args: vec![CdtArgument::Int(1)] };
    let mut buffer = Buffer::new();
    let n = op.write_to(&mut buffer, &Vec::new()).expect("representable");
    assert_eq!(n, 10);
    assert_eq!(buffer.bytes, vec![0x01, 0x01, 0, 0, 0, 0, 0, 0, 0, 1]);
}

#[test]
fn exact_bytes_value_argument_is_length_prefixed() {
    let op = CdtOperation { op: 0x05, args: vec![CdtArgument::Value(Value::Int(7))] };
    let mut buffer = Buffer::new();
    op.write_to(&mut buffer, &Vec::new()).expect("representable");
    // opcode, arg count, u32 payload length (9), tag (1 = integer), 8 bytes
    assert_eq!(
        buffer.bytes,
        vec![0x05, 0x01, 0, 0, 0, 9, 1, 0, 0, 0, 0, 0, 0, 0, 7]
    );
}

#[test]
fn exact_bytes_negative_int_is_twos_complement() {
    let op = CdtOperation { op: 0x02, args: vec![CdtArgument::Int(-1)] };
    let mut buffer = Buffer::new();
    op.write_to(&mut buffer, &Vec::new()).expect("representable");
    assert_eq!(
        buffer.bytes,
        vec![0x02, 0x01, 0xff, 0xff, 0xff, 0xff, 0xff, 0xff, 0xff, 0xff]
    );
}

#[test]
fn exact_bytes_list_argument() {
    let op = CdtOperation {
        op: 0x11,
        args: vec![CdtArgument::List(vec![Value::Bool(true)])],
    };
    let mut buffer = Buffer::new();
    op.write_to(&mut buffer, &Vec::new()).expect("representable");
    // opcode, arg count, u32 element count (1), u32 payload length (2),
    // tag (2 = boolean), 1
    assert_eq!(buffer.bytes, vec![0x11, 0x01, 0, 0, 0, 1, 0, 0, 0, 2, 2, 1]);
}

#[test]
fn context_deeper_than_count_byte_is_rejected() {
    let op = map_put_op(Value::Int(1));
    let ctx: Vec<CdtContext> = (0..256).map(|i| CdtContext::ListIndex(i)).collect();
    assert_eq!(op.estimate_size(&ctx), Err(EncodeError::Unrepresentable));
    let mut buffer = Buffer::new();
    buffer.bytes.push(0xee);
    let r = op.write_to(&mut buffer, &ctx);
    assert_eq!(r, Err(EncodeError::Unrepresentable));
    // a failed write leaves the buffer untouched
    assert_eq!(buffer.bytes, vec![0xee]);
}

#[test]
fn more_arguments_than_count_byte_is_rejected() {
    let args: Vec<CdtArgument> = (0..256).map(|_| CdtArgument::Byte(0)).collect();
    let op = CdtOperation { op: 0x01, args };
    assert_eq!(op.estimate_size(&Vec::new()), Err(EncodeError::Unrepresentable));
}

#[test]
fn estimate_size_touches_no_buffer_state() {
    let op = map_put_op(Value::Bytes(b"VVV".to_vec()));
    let ctx = vec![CdtContext::MapKey(Value::Bytes(b"k".to_vec()))];
    let first = op.estimate_size(&ctx).expect("representable");
    let second = op.estimate_size(&ctx).expect("representable");
    assert_eq!(first, second);
}
