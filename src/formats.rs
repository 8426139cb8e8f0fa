use vstd::prelude::*;

verus! {

/// How Avro messages are framed.
#[derive(Clone, Copy, Debug, PartialEq, Eq, Structural)]
pub struct AvroFormat {
    /// Each message starts with a schema-registry header.
    pub confluent_schema_registry: bool,
    /// Each message carries its own schema.
    pub embedded_schema: bool,
}

/// Why a message's header could not be read.
#[derive(Clone, Copy, Debug, PartialEq, Eq, Structural)]
pub enum HeaderError {
    /// The message is shorter than the five-byte header.
    Truncated,
    /// The first byte is not the zero that opens a registry header.
    BadMagicByte(u8),
}

/// The big-endian `u32` in four bytes.
pub open spec fn be_u32(b0: u8, b1: u8, b2: u8, b3: u8) -> u32 {
    (b0 as int * 0x100_0000 + b1 as int * 0x1_0000 + b2 as int * 0x100 + b3 as int) as u32
}

/// Splits a message into the id of its writer schema and the offset of
/// its Avro body. Without a registry header the schema id is 0 and the
/// body is the whole message; with one, the message is a zero byte, the
/// id in four big-endian bytes, then the body.
pub fn split_registry_header(format: &AvroFormat, msg: &[u8]) -> (r: Result<(u32, usize), HeaderError>)
    ensures
        !format.confluent_schema_registry ==> r == Ok::<(u32, usize), HeaderError>((0, 0)),
        format.confluent_schema_registry && msg@.len() < 5 ==> r == Err::<(u32, usize), HeaderError>(
            HeaderError::Truncated,
        ),
        format.confluent_schema_registry && msg@.len() >= 5 && msg@[0] != 0 ==> r == Err::<
            (u32, usize),
            HeaderError,
        >(HeaderError::BadMagicByte(msg@[0])),
        format.confluent_schema_registry && msg@.len() >= 5 && msg@[0] == 0 ==> r == Ok::<
            (u32, usize),
            HeaderError,
        >((be_u32(msg@[1], msg@[2], msg@[3], msg@[4]), 5)),
{
    if !format.confluent_schema_registry {
        return Ok((0, 0));
    }
    if msg.len() < 5 {
        return Err(HeaderError::Truncated);
    }
    let magic = msg[0];
    if magic != 0 {
        return Err(HeaderError::BadMagicByte(magic));
    }
    let id: u32 = (msg[1] as u32) * 0x100_0000 + (msg[2] as u32) * 0x1_0000 + (msg[3] as u32) * 0x100
        + (msg[4] as u32);
    Ok((id, 5))
}

} // verus!
