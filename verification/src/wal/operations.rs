//! Operations as they stand in the log.
use vstd::prelude::*;
use vstd::slice::slice_subrange;

use crate::codec;
use crate::codec::{copy_into, push_bytes, push_u16, read_u16};
use crate::nodes::image::RecordView;
use crate::nodes::OpType;

verus! {

/// The size of what stands before key and value.
pub const WRITE_OP_HEADER_SIZE: usize = 5;

/// An insertion or a deletion.
#[derive(Debug, Clone, Copy)]
pub struct WriteOp<'a> {
    pub key: &'a [u8],
    pub value: &'a [u8],
    pub op_type: OpType,
}

impl<'a> View for WriteOp<'a> {
    type V = RecordView;

    open spec fn view(&self) -> RecordView {
        RecordView { key: self.key@, value: self.value@, op: self.op_type }
    }
}

/// Key and value lengths have two bytes each. A longer operation is written with
/// what these bytes hold of its lengths, and nothing is read back from that.
pub open spec fn op_fits(r: RecordView) -> bool {
    r.key.len() <= 0xffff && r.value.len() <= 0xffff
}

/// An operation as bytes: key_size | value_size | op_type | key | value.
pub open spec fn op_bytes(r: RecordView) -> Seq<u8> {
    codec::le16(r.key.len() as u16) + codec::le16(r.value.len() as u16) + seq![r.op.code()] + r.key
        + r.value
}

/// The operation that `b` stands for: an insertion or a deletion, and nothing
/// else behind it.
pub open spec fn parse_op(b: Seq<u8>) -> Option<RecordView> {
    if b.len() < WRITE_OP_HEADER_SIZE {
        None
    } else {
        let key_size = codec::u16_at(b, 0) as int;
        let value_size = codec::u16_at(b, 2) as int;
        if b.len() != WRITE_OP_HEADER_SIZE + key_size + value_size || b[4] > 1 {
            None
        } else {
            Some(
                RecordView {
                    key: b.subrange(5, 5 + key_size),
                    value: b.subrange(5 + key_size, b.len() as int),
                    op: if b[4] == 0 {
                        OpType::Insert
                    } else {
                        OpType::Delete
                    },
                },
            )
        }
    }
}

/// What is logged is read back, or nothing is: never another operation. It is read
/// back if it is an insertion or a deletion whose lengths can be written.
pub proof fn law_logged_op_is_read_back(r: RecordView)
    ensures
        parse_op(op_bytes(r)) == if op_fits(r) && (r.op == OpType::Insert || r.op
            == OpType::Delete) {
            Some(r)
        } else {
            None
        },
        op_bytes(r).len() == WRITE_OP_HEADER_SIZE + r.key.len() + r.value.len(),
{
    let b = op_bytes(r);
    codec::lemma_le16(r.key.len() as u16);
    codec::lemma_le16(r.value.len() as u16);
    assert(b.subrange(0, 2) =~= codec::le16(r.key.len() as u16));
    assert(b.subrange(2, 4) =~= codec::le16(r.value.len() as u16));
    assert(b[4] == r.op.code());
    assert(b.subrange(5, (5 + r.key.len()) as int) =~= r.key);
    assert(b.subrange((5 + r.key.len()) as int, b.len() as int) =~= r.value);
}

impl<'a> WriteOp<'a> {
    pub fn make_insert(key: &'a [u8], value: &'a [u8]) -> (r: WriteOp<'a>)
        ensures
            r@ == (RecordView { key: key@, value: value@, op: OpType::Insert }),
    {
        WriteOp { key, value, op_type: OpType::Insert }
    }

    pub fn make_delete(key: &'a [u8]) -> (r: WriteOp<'a>)
        ensures
            r@ == (RecordView { key: key@, value: Seq::empty(), op: OpType::Delete }),
    {
        let value = slice_subrange(key, 0, 0);
        assert(value@ =~= Seq::empty());
        WriteOp { key, value, op_type: OpType::Delete }
    }

    /// The operation that `buffer` stands for, if any.
    pub fn try_read_from_buffer(buffer: &'a [u8]) -> (r: Option<WriteOp<'a>>)
        ensures
            r is Some <==> parse_op(buffer@) is Some,
            r matches Some(op) ==> Some(op@) == parse_op(buffer@),
    {
        let n = buffer.len();
        if n < WRITE_OP_HEADER_SIZE {
            return None;
        }
        let key_size = read_u16(buffer, 0) as usize;
        let value_size = read_u16(buffer, 2) as usize;
        if n != WRITE_OP_HEADER_SIZE + key_size + value_size {
            return None;
        }
        let op_type = match buffer[4] {
            0 => OpType::Insert,
            1 => OpType::Delete,
            _ => {
                return None;
            },
        };
        let value_offset: usize = WRITE_OP_HEADER_SIZE + key_size;
        Some(
            WriteOp {
                key: slice_subrange(buffer, WRITE_OP_HEADER_SIZE, value_offset),
                value: slice_subrange(buffer, value_offset, n),
                op_type,
            },
        )
    }

    /// The number of bytes that the operation takes in the log.
    pub fn log_size(&self) -> (r: usize)
        requires
            op_bytes(self@).len() <= usize::MAX,
        ensures
            r == op_bytes(self@).len(),
            r == WRITE_OP_HEADER_SIZE + self.key@.len() + self.value@.len(),
    {
        proof {
            codec::lemma_le16(self.key@.len() as u16);
            codec::lemma_le16(self.value@.len() as u16);
        }
        WRITE_OP_HEADER_SIZE + self.key.len() + self.value.len()
    }

    /// Writes the operation to a buffer of just its size.
    pub fn write_to_buffer(&self, buffer: &mut [u8])
        requires
            old(buffer)@.len() == op_bytes(self@).len(),
        ensures
            final(buffer)@ == op_bytes(self@),
    {
        let bytes = self.to_bytes();
        copy_into(buffer, 0, bytes.as_slice());
        assert(buffer@ =~= op_bytes(self@));
    }

    /// The operation as bytes.
    pub fn to_bytes(&self) -> (r: Vec<u8>)
        ensures
            r@ == op_bytes(self@),
    {
        let mut r: Vec<u8> = Vec::new();
        push_u16(&mut r, self.key.len() as u16);
        push_u16(&mut r, self.value.len() as u16);
        r.push(self.op_type.as_u8());
        push_bytes(&mut r, self.key);
        push_bytes(&mut r, self.value);
        assert(r@ =~= op_bytes(self@));
        r
    }
}

} // verus!
