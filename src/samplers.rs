//! Detection of the on-disk layout of a segment written by an older broker.
use vstd::prelude::*;
use crate::codec::{u64_le, read_u64_le};

verus! {

/// The layouts that a segment's log can have.
#[derive(Debug, Clone, Copy, PartialEq, Eq, Structural)]
pub enum BinarySchema {
    RetainedMessageSchema,
    RetainedMessageBatchSchema,
}

/// Failures of layout detection.
#[derive(Debug, Clone, Copy, PartialEq, Eq, Structural)]
pub enum ServerCompatError {
    InvalidMessageOffsetFormatConversion,
    InvalidBatchBaseOffsetFormatConversion,
    InvalidMessageFieldFormatConversionSampling,
    CannotReadMessageBatchFormatConversion,
    IoError,
}

/// The outcome of sampling a log whose first record starts with an 8-byte
/// offset: an empty log or a first record at the segment's start offset has
/// `schema`; a log too short for the offset fails with `short`, one whose
/// first offset differs fails with `mismatch`.
pub open spec fn sample_outcome(
    log_file_size: u64,
    first_record: Seq<u8>,
    start_offset: u64,
    schema: BinarySchema,
    short: ServerCompatError,
    mismatch: ServerCompatError,
) -> Result<BinarySchema, ServerCompatError> {
    if log_file_size == 0 {
        Ok(schema)
    } else if first_record.len() < 8 {
        Err(short)
    } else if u64_le(first_record, 0) != start_offset {
        Err(mismatch)
    } else {
        Ok(schema)
    }
}

fn check_first_offset(
    log_file_size: u64,
    first_record: &[u8],
    start_offset: u64,
    schema: BinarySchema,
    short: ServerCompatError,
    mismatch: ServerCompatError,
) -> (r: Result<BinarySchema, ServerCompatError>)
    ensures
        r == sample_outcome(log_file_size, first_record@, start_offset, schema, short, mismatch),
{
    if log_file_size == 0 {
        return Ok(schema);
    }
    if first_record.len() < 8 {
        return Err(short);
    }
    if read_u64_le(first_record, 0) != start_offset {
        return Err(mismatch);
    }
    Ok(schema)
}

/// Samples a segment whose log holds single messages.
pub struct MessageSampler {
    pub segment_start_offset: u64,
    pub log_path: String,
    pub index_path: String,
}

impl MessageSampler {
    pub fn new(segment_start_offset: u64, log_path: String, index_path: String) -> (r:
        MessageSampler)
        ensures
            r.segment_start_offset == segment_start_offset,
            r.log_path == log_path,
            r.index_path == index_path,
    {
        MessageSampler { segment_start_offset, log_path, index_path }
    }

    /// Decides the layout from the log's size and the bytes of its first
    /// message, which the first index entry delimits.
    pub fn check_sample(&self, log_file_size: u64, first_message: &[u8]) -> (r: Result<
        BinarySchema,
        ServerCompatError,
    >)
        ensures
            r == sample_outcome(
                log_file_size,
                first_message@,
                self.segment_start_offset,
                BinarySchema::RetainedMessageSchema,
                ServerCompatError::InvalidMessageFieldFormatConversionSampling,
                ServerCompatError::InvalidMessageOffsetFormatConversion,
            ),
    {
        check_first_offset(
            log_file_size,
            first_message,
            self.segment_start_offset,
            BinarySchema::RetainedMessageSchema,
            ServerCompatError::InvalidMessageFieldFormatConversionSampling,
            ServerCompatError::InvalidMessageOffsetFormatConversion,
        )
    }
}

/// Samples a segment whose log holds message batches.
pub struct RetainedMessageBatchSampler {
    pub segment_start_offset: u64,
    pub log_path: String,
    pub index_path: String,
}

impl RetainedMessageBatchSampler {
    pub fn new(segment_start_offset: u64, log_path: String, index_path: String) -> (r:
        RetainedMessageBatchSampler)
        ensures
            r.segment_start_offset == segment_start_offset,
            r.log_path == log_path,
            r.index_path == index_path,
    {
        RetainedMessageBatchSampler { segment_start_offset, log_path, index_path }
    }

    /// Decides the layout from the log's size and the bytes of its first
    /// batch: up to the second index entry's position, or the whole log when
    /// the index has one entry.
    pub fn check_sample(&self, log_file_size: u64, first_batch: &[u8]) -> (r: Result<
        BinarySchema,
        ServerCompatError,
    >)
        ensures
            r == sample_outcome(
                log_file_size,
                first_batch@,
                self.segment_start_offset,
                BinarySchema::RetainedMessageBatchSchema,
                ServerCompatError::CannotReadMessageBatchFormatConversion,
                ServerCompatError::InvalidBatchBaseOffsetFormatConversion,
            ),
    {
        check_first_offset(
            log_file_size,
            first_batch,
            self.segment_start_offset,
            BinarySchema::RetainedMessageBatchSchema,
            ServerCompatError::CannotReadMessageBatchFormatConversion,
            ServerCompatError::InvalidBatchBaseOffsetFormatConversion,
        )
    }
}

} // verus!
