//! Putting a state witness on a wire, and taking one off a hostile one.
//!
//! A dispute is settled by executing one instruction from the state both parties agreed on, and a
//! party hands that state over. This module is the format it travels in.
//!
//! A witness may be decoded from an untrusted party because it is checked afterwards:
//! [`crate::dispute::adjudicate`] refuses any witness whose root differs from the one both
//! parties claimed. The decoder's own job is narrower: it never panics, never allocates on a
//! stranger's say-so, since every count is checked against the bytes that remain, and never
//! hangs.
//!
//! # Format
//!
//! Little-endian, no padding, no self-description beyond the header.
//!
//! ```text
//! magic    "CWTN"
//! version  u8 = 2
//! output   32 bytes (the digest of the answer so far)
//! globals        u32 count, then count x value
//! operand stack  u32 count, then count x value
//! frames         u32 count, then count x frame
//! memory_pages       u32
//! memory_max_pages   u32
//! memory_root        32 bytes
//! pages          u32 count, then count x page
//! dropped_data       u32 count, then count x u8 (0 or 1)
//! dropped_elements   u32 count, then count x u8
//! fuel     u64
//! steps    u64
//!
//! value  u8 tag (0 = i32, 1 = i64, 2 = f32, 3 = f64), then u64 payload
//! frame  u32 function, u32 instruction, u32 stack_base, u32 arity,
//!        u32 count x value (locals), u32 count x label
//! label  u32 branch_target, u32 arity, u32 stack_height, u32 end, u8 is_loop
//! page   u32 index, PAGE_SIZE bytes, u32 count x 32-byte sibling
//! ```
//!
//! This encoding is not the one that is hashed, so a change here cannot move a state root.
use crate::bytes::{
    concat_all, get_le, le_bytes, le_value, lemma_concat_all_push, lemma_le_bytes_len,
    lemma_le_value_bound, lemma_le_value_of_bytes, lemma_pow256_values, pow256, put_bytes, put_le,
};
use crate::engine::machine::{FrameWitness, LabelWitness, PageWitness, Witness};
use crate::engine::semantics::FrameView;
use crate::engine::witness::{PageView, WitnessView};
use crate::fuel::Fuel;
use crate::hash::Digest;
use crate::merkle::PAGE_SIZE;
use crate::state::Value;
use crate::text;
use vstd::prelude::*;

verus! {

/// Identifies the format, so a truncated body or unrelated bytes fail immediately rather than as
/// a confusing count.
pub const MAGIC: [u8; 4] = [0x43, 0x57, 0x54, 0x4e];

/// The only version this build speaks.
///
/// A version-1 witness had no output digest, and would reconstruct a *different* root rather than
/// fail to parse. Refusing it outright is the difference between "your worker is out of date" and
/// an unexplained conviction.
pub const VERSION: u8 = 2;

/// Smallest number of bytes one encoded value can occupy.
const VALUE_MIN: usize = 9;

/// Smallest number of bytes one encoded label can occupy.
const LABEL_MIN: usize = 17;

/// Smallest number of bytes one encoded frame can occupy: four fixed words and two empty counts.
const FRAME_MIN: usize = 24;

/// Smallest number of bytes one encoded page can occupy: index, the page itself, an empty proof.
const PAGE_MIN: usize = 65_544;

/// Bytes of a hash.
const DIGEST_SIZE: usize = 32;

/// Why a witness could not be encoded or decoded.
#[derive(Debug, Clone, Copy, PartialEq, Eq)]
pub enum WireError {
    /// The bytes do not begin with this format's magic.
    NotAWitness,
    /// A version this build does not speak.
    UnsupportedVersion {
        /// The version byte found.
        found: u8,
    },
    /// The input ended in the middle of a field.
    Truncated {
        /// What was being read when it ran out.
        reading: &'static str,
    },
    /// A count claims more elements than the remaining input could hold.
    ///
    /// The defence against a length prefix of four billion.
    ImplausibleCount {
        /// What was being read.
        reading: &'static str,
        /// The count claimed.
        claimed: u64,
        /// Bytes actually left.
        remaining: usize,
    },
    /// A value tag outside `0..=3`. Reference types cannot appear in a witness at all:
    /// [`crate::validate`] rejects any module that could produce one.
    UnknownValueTag {
        /// The tag byte found.
        tag: u8,
    },
    /// A page carried something other than exactly [`PAGE_SIZE`] bytes.
    WrongPageLength {
        /// How many bytes it carried.
        found: usize,
    },
    /// Bytes remain after a complete witness. Refused rather than ignored: trailing data means
    /// the sender and this decoder disagree about the format.
    TrailingBytes {
        /// How many.
        extra: usize,
    },
    /// A count exceeded `u32`, so it cannot be encoded. Only reachable from a witness this
    /// process built.
    TooLargeToEncode {
        /// What was being written.
        writing: &'static str,
    },
}

impl WireError {
    /// The message.
    pub open spec fn message(self) -> Seq<char> {
        match self {
            WireError::NotAWitness => "not a Cairn witness"@,
            WireError::UnsupportedVersion { found } => "witness format version "@
                + text::decimal_text(found as nat) + " is not supported"@,
            WireError::Truncated { reading } => "witness ended while reading "@ + reading@,
            WireError::ImplausibleCount { reading, claimed, remaining } => reading@ + " claims "@
                + text::decimal_text(claimed as nat) + " entries with only "@ + text::decimal_text(
                remaining as nat,
            ) + " bytes left"@,
            WireError::UnknownValueTag { tag } => "unknown value tag "@ + text::hex_text(tag),
            WireError::WrongPageLength { found } => "a page carried "@ + text::decimal_text(
                found as nat,
            ) + " bytes, not 65536"@,
            WireError::TrailingBytes { extra } => text::decimal_text(extra as nat)
                + " bytes after the witness"@,
            WireError::TooLargeToEncode { writing } => "too many "@ + writing@ + " to encode"@,
        }
    }

    /// A description.
    #[must_use]
    pub fn to_string(&self) -> (r: String)
        ensures
            r@ == self.message(),
    {
        match self {
            WireError::NotAWitness => String::from_str("not a Cairn witness"),
            WireError::UnsupportedVersion { found } => text::join3(
                "witness format version ",
                text::decimal(*found as u64).as_str(),
                " is not supported",
            ),
            WireError::Truncated { reading } => text::join2(
                "witness ended while reading ",
                reading,
            ),
            WireError::ImplausibleCount { reading, claimed, remaining } => {
                let mut r = text::join5(
                    reading,
                    " claims ",
                    text::decimal(*claimed).as_str(),
                    " entries with only ",
                    text::decimal(*remaining as u64).as_str(),
                );
                r.append(" bytes left");
                r
            },
            WireError::UnknownValueTag { tag } => text::join2(
                "unknown value tag ",
                text::hex(*tag).as_str(),
            ),
            WireError::WrongPageLength { found } => text::join3(
                "a page carried ",
                text::decimal(*found as u64).as_str(),
                " bytes, not 65536",
            ),
            WireError::TrailingBytes { extra } => text::join2(
                text::decimal(*extra as u64).as_str(),
                " bytes after the witness",
            ),
            WireError::TooLargeToEncode { writing } => text::join3(
                "too many ",
                writing,
                " to encode",
            ),
        }
    }
}

/// The bytes of a value.
pub open spec fn value_bytes(v: Value) -> Seq<u8> {
    match v {
        Value::I32(n) => seq![0u8] + le_bytes((n as u32) as nat, 8),
        Value::I64(n) => seq![1u8] + le_bytes((n as u64) as nat, 8),
        Value::F32(bits) => seq![2u8] + le_bytes(bits as nat, 8),
        Value::F64(bits) => seq![3u8] + le_bytes(bits as nat, 8),
    }
}

/// A list: how many entries, and then each of them.
pub open spec fn listed<T>(items: Seq<T>, encoder: spec_fn(T) -> Seq<u8>) -> Seq<u8> {
    le_bytes(items.len(), 4) + concat_all(items, encoder)
}

/// The bytes of a list of values.
pub open spec fn values_bytes(values: Seq<Value>) -> Seq<u8> {
    listed(values, |v: Value| value_bytes(v))
}

/// One byte for a flag.
pub open spec fn flag_byte(f: bool) -> u8 {
    if f {
        1
    } else {
        0
    }
}

/// The bytes of a label.
pub open spec fn label_bytes(l: LabelWitness) -> Seq<u8> {
    le_bytes(l.branch_target as nat, 4) + le_bytes(l.arity as nat, 4) + le_bytes(
        l.stack_height as nat,
        4,
    ) + le_bytes(l.end as nat, 4) + seq![flag_byte(l.is_loop)]
}

/// The bytes of a frame.
pub open spec fn frame_bytes(f: FrameView) -> Seq<u8> {
    le_bytes(f.function as nat, 4) + le_bytes(f.pc as nat, 4) + le_bytes(f.stack_base as nat, 4)
        + le_bytes(f.arity as nat, 4) + values_bytes(f.locals) + listed(
        f.labels,
        |l: LabelWitness| label_bytes(l),
    )
}

/// The bytes of a page.
pub open spec fn page_bytes(p: PageView) -> Seq<u8> {
    le_bytes(p.index as nat, 4) + p.bytes + listed(p.path, |h: Digest| h@)
}

/// The bytes of a list of flags.
pub open spec fn flags_bytes(flags: Seq<bool>) -> Seq<u8> {
    listed(flags, |f: bool| seq![flag_byte(f)])
}

/// The bytes up to the frames.
pub open spec fn front_bytes(w: WitnessView) -> Seq<u8> {
    w.output@ + values_bytes(w.globals) + values_bytes(w.operand_stack) + listed(
        w.frames,
        |f: FrameView| frame_bytes(f),
    )
}

/// The bytes after the frames.
pub open spec fn back_bytes(w: WitnessView) -> Seq<u8> {
    le_bytes(w.memory_pages as nat, 4) + le_bytes(w.memory_max_pages as nat, 4) + w.memory_root@
        + listed(w.pages, |p: PageView| page_bytes(p)) + flags_bytes(w.dropped_data) + flags_bytes(
        w.dropped_elements,
    ) + le_bytes(w.fuel.0 as nat, 8) + le_bytes(w.steps as nat, 8)
}

/// The bytes of a witness.
pub open spec fn encoding(w: WitnessView) -> Seq<u8> {
    MAGIC@ + seq![VERSION] + front_bytes(w) + back_bytes(w)
}

/// What is wrong with a count, if anything.
pub open spec fn too_many(count: nat, writing: &'static str) -> Option<WireError> {
    if count > u32::MAX {
        Some(WireError::TooLargeToEncode { writing })
    } else {
        None
    }
}

/// The first of two complaints.
pub open spec fn first_of(a: Option<WireError>, b: Option<WireError>) -> Option<WireError> {
    if a is Some {
        a
    } else {
        b
    }
}

/// The first complaint about any of some items.
pub open spec fn first_among<T>(
    items: Seq<T>,
    complaint: spec_fn(T) -> Option<WireError>,
) -> Option<WireError>
    decreases items.len(),
{
    if items.len() == 0 {
        None
    } else {
        first_of(first_among(items.drop_last(), complaint), complaint(items.last()))
    }
}

/// What keeps a frame from being encoded.
pub open spec fn frame_complaint(f: FrameView) -> Option<WireError> {
    first_of(too_many(f.locals.len(), "locals"), too_many(f.labels.len(), "labels"))
}

/// What keeps a page from being encoded.
pub open spec fn page_complaint(p: PageView) -> Option<WireError> {
    if p.bytes.len() != PAGE_SIZE {
        Some(WireError::WrongPageLength { found: p.bytes.len() as usize })
    } else {
        too_many(p.path.len(), "proof siblings")
    }
}

/// What keeps a witness from being encoded: the first thing in the order of the format.
pub open spec fn complaint(w: WitnessView) -> Option<WireError> {
    first_of(
        first_of(
            first_of(
                too_many(w.globals.len(), "globals"),
                too_many(w.operand_stack.len(), "operand stack entries"),
            ),
            first_of(
                too_many(w.frames.len(), "frames"),
                first_among(w.frames, |f: FrameView| frame_complaint(f)),
            ),
        ),
        first_of(
            first_of(
                too_many(w.pages.len(), "pages"),
                first_among(w.pages, |p: PageView| page_complaint(p)),
            ),
            first_of(
                too_many(w.dropped_data.len(), "dropped data segments"),
                too_many(w.dropped_elements.len(), "dropped element segments"),
            ),
        ),
    )
}

/// A value read, and where reading goes on.
pub type Parsed<T> = Result<(T, nat), WireError>;

/// The next bytes.
pub open spec fn taken(b: Seq<u8>, at: nat, n: nat, reading: &'static str) -> Parsed<Seq<u8>> {
    if at + n > b.len() {
        Err(WireError::Truncated { reading })
    } else {
        Ok((b.subrange(at as int, (at + n) as int), at + n))
    }
}

/// The next number.
pub open spec fn number(b: Seq<u8>, at: nat, n: nat, reading: &'static str) -> Parsed<nat> {
    match taken(b, at, n, reading) {
        Err(e) => Err(e),
        Ok((bytes, next)) => Ok((le_value(bytes), next)),
    }
}

/// The hash that some bytes are.
pub open spec fn digest_of(bytes: Seq<u8>) -> Digest {
    choose|d: Digest| d@ == bytes
}

/// The next hash.
pub open spec fn digest(b: Seq<u8>, at: nat, reading: &'static str) -> Parsed<Digest> {
    match taken(b, at, 32, reading) {
        Err(e) => Err(e),
        Ok((bytes, next)) => Ok((digest_of(bytes), next)),
    }
}

/// The next count, refused unless the remaining input could hold that many.
pub open spec fn counted(b: Seq<u8>, at: nat, reading: &'static str, least: nat) -> Parsed<nat> {
    match number(b, at, 4, reading) {
        Err(e) => Err(e),
        Ok((claimed, next)) => if claimed * least > b.len() - next {
            Err(
                WireError::ImplausibleCount {
                    reading,
                    claimed: claimed as u64,
                    remaining: (b.len() - next) as usize,
                },
            )
        } else {
            Ok((claimed, next))
        },
    }
}

/// So many of one thing.
pub open spec fn repeated<T>(
    b: Seq<u8>,
    at: nat,
    count: nat,
    one: spec_fn(Seq<u8>, nat) -> Parsed<T>,
) -> Parsed<Seq<T>>
    decreases count,
{
    if count == 0 {
        Ok((Seq::empty(), at))
    } else {
        match repeated(b, at, (count - 1) as nat, one) {
            Err(e) => Err(e),
            Ok((items, next)) => match one(b, next) {
                Err(e) => Err(e),
                Ok((item, end)) => Ok((items.push(item), end)),
            },
        }
    }
}

/// A list of one thing.
pub open spec fn list<T>(
    b: Seq<u8>,
    at: nat,
    reading: &'static str,
    least: nat,
    one: spec_fn(Seq<u8>, nat) -> Parsed<T>,
) -> Parsed<Seq<T>> {
    match counted(b, at, reading, least) {
        Err(e) => Err(e),
        Ok((count, next)) => repeated(b, next, count, one),
    }
}

/// The next value.
pub open spec fn value(b: Seq<u8>, at: nat) -> Parsed<Value> {
    match number(b, at, 1, "value tag") {
        Err(e) => Err(e),
        Ok((tag, next)) => match number(b, next, 8, "value payload") {
            Err(e) => Err(e),
            Ok((payload, end)) => {
                let payload = payload as u64;
                match tag as u8 {
                    0 => Ok((Value::I32((payload as u32) as i32), end)),
                    1 => Ok((Value::I64(payload as i64), end)),
                    2 => Ok((Value::F32(payload as u32), end)),
                    3 => Ok((Value::F64(payload), end)),
                    tag => Err(WireError::UnknownValueTag { tag }),
                }
            },
        },
    }
}

/// The next list of values.
pub open spec fn values(b: Seq<u8>, at: nat, reading: &'static str) -> Parsed<Seq<Value>> {
    list(b, at, reading, 9, |b: Seq<u8>, at: nat| value(b, at))
}

/// The next label.
pub open spec fn label(b: Seq<u8>, at: nat) -> Parsed<LabelWitness> {
    match number(b, at, 4, "label target") {
        Err(e) => Err(e),
        Ok((branch_target, at)) => match number(b, at, 4, "label arity") {
            Err(e) => Err(e),
            Ok((arity, at)) => match number(b, at, 4, "label stack height") {
                Err(e) => Err(e),
                Ok((stack_height, at)) => match number(b, at, 4, "label end") {
                    Err(e) => Err(e),
                    Ok((end, at)) => match number(b, at, 1, "label kind") {
                        Err(e) => Err(e),
                        Ok((kind, at)) => Ok(
                            (
                                LabelWitness {
                                    branch_target: branch_target as u32,
                                    arity: arity as u32,
                                    stack_height: stack_height as u32,
                                    end: end as u32,
                                    is_loop: kind != 0,
                                },
                                at,
                            ),
                        ),
                    },
                },
            },
        },
    }
}

/// The next frame.
pub open spec fn frame(b: Seq<u8>, at: nat) -> Parsed<FrameView> {
    match number(b, at, 4, "frame function") {
        Err(e) => Err(e),
        Ok((function, at)) => match number(b, at, 4, "frame instruction") {
            Err(e) => Err(e),
            Ok((pc, at)) => match number(b, at, 4, "frame stack base") {
                Err(e) => Err(e),
                Ok((stack_base, at)) => match number(b, at, 4, "frame arity") {
                    Err(e) => Err(e),
                    Ok((arity, at)) => match values(b, at, "locals") {
                        Err(e) => Err(e),
                        Ok((locals, at)) => match list(
                            b,
                            at,
                            "labels",
                            17,
                            |b: Seq<u8>, at: nat| label(b, at),
                        ) {
                            Err(e) => Err(e),
                            Ok((labels, at)) => Ok(
                                (
                                    FrameView {
                                        function: function as u32,
                                        pc: pc as u32,
                                        locals,
                                        stack_base: stack_base as u32,
                                        arity: arity as u32,
                                        labels,
                                    },
                                    at,
                                ),
                            ),
                        },
                    },
                },
            },
        },
    }
}

/// The next page.
pub open spec fn page(b: Seq<u8>, at: nat) -> Parsed<PageView> {
    match number(b, at, 4, "page index") {
        Err(e) => Err(e),
        Ok((index, at)) => match taken(b, at, PAGE_SIZE as nat, "page bytes") {
            Err(e) => Err(e),
            Ok((bytes, at)) => match list(
                b,
                at,
                "proof siblings",
                32,
                |b: Seq<u8>, at: nat| digest(b, at, "proof sibling"),
            ) {
                Err(e) => Err(e),
                Ok((path, at)) => Ok((PageView { index: index as u32, bytes, path }, at)),
            },
        },
    }
}

/// The next list of flags.
pub open spec fn flags(b: Seq<u8>, at: nat, reading: &'static str) -> Parsed<Seq<bool>> {
    match counted(b, at, reading, 1) {
        Err(e) => Err(e),
        Ok((count, at)) => match taken(b, at, count, reading) {
            Err(e) => Err(e),
            Ok((bytes, at)) => Ok((bytes.map_values(|x: u8| x != 0), at)),
        },
    }
}

/// What follows the header, up to the frames.
pub struct Front {
    /// The digest of the answer.
    pub output: Digest,
    /// The globals.
    pub globals: Seq<Value>,
    /// The operand stack.
    pub operand_stack: Seq<Value>,
    /// The call stack.
    pub frames: Seq<FrameView>,
}

/// What follows the frames.
pub struct Back {
    /// Memory size in pages.
    pub memory_pages: u32,
    /// Memory ceiling in pages.
    pub memory_max_pages: u32,
    /// Root of the memory.
    pub memory_root: Digest,
    /// The pages.
    pub pages: Seq<PageView>,
    /// Which data segments have been dropped.
    pub dropped_data: Seq<bool>,
    /// Which element segments have been dropped.
    pub dropped_elements: Seq<bool>,
    /// Fuel consumed.
    pub fuel: Fuel,
    /// Instructions executed.
    pub steps: u64,
}

/// The header: the magic and a version this build speaks.
pub open spec fn header(b: Seq<u8>) -> Parsed<()> {
    match taken(b, 0, 4, "magic") {
        Err(e) => Err(e),
        Ok((magic, at)) => if magic != MAGIC@ {
            Err(WireError::NotAWitness)
        } else {
            match number(b, at, 1, "version") {
                Err(e) => Err(e),
                Ok((version, at)) => if version != VERSION {
                    Err(WireError::UnsupportedVersion { found: version as u8 })
                } else {
                    Ok(((), at))
                },
            }
        },
    }
}

/// The fields up to the frames.
pub open spec fn front(b: Seq<u8>, at: nat) -> Parsed<Front> {
    match digest(b, at, "output digest") {
        Err(e) => Err(e),
        Ok((output, at)) => match values(b, at, "globals") {
            Err(e) => Err(e),
            Ok((globals, at)) => match values(b, at, "operand stack") {
                Err(e) => Err(e),
                Ok((operand_stack, at)) => match list(
                    b,
                    at,
                    "frames",
                    24,
                    |b: Seq<u8>, at: nat| frame(b, at),
                ) {
                    Err(e) => Err(e),
                    Ok((frames, at)) => Ok((Front { output, globals, operand_stack, frames }, at)),
                },
            },
        },
    }
}

/// The memory's size, ceiling and root.
pub open spec fn memory_fields(b: Seq<u8>, at: nat) -> Parsed<(u32, u32, Digest)> {
    match number(b, at, 4, "memory pages") {
        Err(e) => Err(e),
        Ok((memory_pages, at)) => match number(b, at, 4, "memory ceiling") {
            Err(e) => Err(e),
            Ok((memory_max_pages, at)) => match digest(b, at, "memory root") {
                Err(e) => Err(e),
                Ok((root, at)) => Ok(((memory_pages as u32, memory_max_pages as u32, root), at)),
            },
        },
    }
}

/// The fields after the frames.
pub open spec fn back(b: Seq<u8>, at: nat) -> Parsed<Back> {
    match memory_fields(b, at) {
        Err(e) => Err(e),
        Ok(((memory_pages, memory_max_pages, memory_root), at)) => match list(
            b,
            at,
            "pages",
            65_544,
            |b: Seq<u8>, at: nat| page(b, at),
        ) {
            Err(e) => Err(e),
            Ok((pages, at)) => match flags(b, at, "dropped data segments") {
                Err(e) => Err(e),
                Ok((dropped_data, at)) => match flags(b, at, "dropped element segments") {
                    Err(e) => Err(e),
                    Ok((dropped_elements, at)) => match number(b, at, 8, "fuel") {
                        Err(e) => Err(e),
                        Ok((fuel, at)) => match number(b, at, 8, "steps") {
                            Err(e) => Err(e),
                            Ok((steps, at)) => Ok(
                                (
                                    Back {
                                        memory_pages,
                                        memory_max_pages,
                                        memory_root,
                                        pages,
                                        dropped_data,
                                        dropped_elements,
                                        fuel: Fuel(fuel as u64),
                                        steps: steps as u64,
                                    },
                                    at,
                                ),
                            ),
                        },
                    },
                },
            },
        },
    }
}

/// The witness of two halves.
pub open spec fn joined(f: Front, k: Back) -> WitnessView {
    WitnessView {
        output: f.output,
        globals: f.globals,
        operand_stack: f.operand_stack,
        frames: f.frames,
        memory_pages: k.memory_pages,
        memory_max_pages: k.memory_max_pages,
        memory_root: k.memory_root,
        pages: k.pages,
        dropped_data: k.dropped_data,
        dropped_elements: k.dropped_elements,
        fuel: k.fuel,
        steps: k.steps,
    }
}

/// The witness some bytes are, or what is wrong with them.
pub open spec fn decoded(b: Seq<u8>) -> Result<WitnessView, WireError> {
    match header(b) {
        Err(e) => Err(e),
        Ok((_, at)) => match front(b, at) {
            Err(e) => Err(e),
            Ok((f, at)) => match back(b, at) {
                Err(e) => Err(e),
                Ok((k, at)) => if at < b.len() {
                    Err(WireError::TrailingBytes { extra: (b.len() - at) as usize })
                } else {
                    Ok(joined(f, k))
                },
            },
        },
    }
}

/// Append a count.
fn put_count(out: &mut Vec<u8>, count: usize, writing: &'static str) -> (r: Result<(), WireError>)
    ensures
        match too_many(count as nat, writing) {
            Some(e) => r == Err::<(), _>(e),
            None => r is Ok && final(out)@ == old(out)@ + le_bytes(count as nat, 4),
        },
{
    if count as u64 > u32::MAX as u64 {
        return Err(WireError::TooLargeToEncode { writing });
    }
    put_le(out, count as u64, 4);
    Ok(())
}

/// Append one value.
fn put_value(out: &mut Vec<u8>, v: Value)
    ensures
        final(out)@ == old(out)@ + value_bytes(v),
{
    let (tag, payload): (u8, u64) = match v {
        Value::I32(n) => (0, (n as u32) as u64),
        Value::I64(n) => (1, n as u64),
        Value::F32(bits) => (2, bits as u64),
        Value::F64(bits) => (3, bits),
    };
    let ghost before = out@;
    out.push(tag);
    put_le(out, payload, 8);
    assert(out@ =~= before + value_bytes(v));
}

/// Append a list of values.
fn put_values(out: &mut Vec<u8>, values: &Vec<Value>, writing: &'static str) -> (r: Result<
    (),
    WireError,
>)
    ensures
        match too_many(values@.len(), writing) {
            Some(e) => r == Err::<(), _>(e),
            None => r is Ok && final(out)@ == old(out)@ + values_bytes(values@),
        },
{
    let ghost start = out@;
    match put_count(out, values.len(), writing) {
        Ok(_) => {},
        Err(e) => return Err(e),
    }
    let ghost before = out@;
    let ghost encoder = |v: Value| value_bytes(v);
    let mut i: usize = 0;
    assert(values@.take(0) =~= Seq::empty());
    assert(out@ =~= before + concat_all(values@.take(0), encoder));
    while i < values.len()
        invariant
            i <= values@.len(),
            encoder == (|v: Value| value_bytes(v)),
            out@ == before + concat_all(values@.take(i as int), encoder),
        decreases values@.len() - i,
    {
        proof {
            lemma_concat_all_push(values@, i as int, encoder);
        }
        put_value(out, values[i]);
        i = i + 1;
        assert(out@ =~= before + concat_all(values@.take(i as int), encoder));
    }
    assert(values@.take(i as int) =~= values@);
    assert(out@ =~= start + values_bytes(values@));
    Ok(())
}

/// Append a list of flags.
fn put_flags(out: &mut Vec<u8>, flags: &Vec<bool>, writing: &'static str) -> (r: Result<
    (),
    WireError,
>)
    ensures
        match too_many(flags@.len(), writing) {
            Some(e) => r == Err::<(), _>(e),
            None => r is Ok && final(out)@ == old(out)@ + flags_bytes(flags@),
        },
{
    let ghost start = out@;
    match put_count(out, flags.len(), writing) {
        Ok(_) => {},
        Err(e) => return Err(e),
    }
    let ghost before = out@;
    let ghost encoder = |f: bool| seq![flag_byte(f)];
    let mut i: usize = 0;
    assert(flags@.take(0) =~= Seq::empty());
    assert(out@ =~= before + concat_all(flags@.take(0), encoder));
    while i < flags.len()
        invariant
            i <= flags@.len(),
            encoder == (|f: bool| seq![flag_byte(f)]),
            out@ == before + concat_all(flags@.take(i as int), encoder),
        decreases flags@.len() - i,
    {
        proof {
            lemma_concat_all_push(flags@, i as int, encoder);
        }
        out.push(if flags[i] { 1 } else { 0 });
        i = i + 1;
        assert(out@ =~= before + concat_all(flags@.take(i as int), encoder));
    }
    assert(flags@.take(i as int) =~= flags@);
    assert(out@ =~= start + flags_bytes(flags@));
    Ok(())
}

/// Append one label.
fn put_label(out: &mut Vec<u8>, l: LabelWitness)
    ensures
        final(out)@ == old(out)@ + label_bytes(l),
{
    let ghost before = out@;
    put_le(out, l.branch_target as u64, 4);
    put_le(out, l.arity as u64, 4);
    put_le(out, l.stack_height as u64, 4);
    put_le(out, l.end as u64, 4);
    out.push(if l.is_loop { 1 } else { 0 });
    assert(out@ =~= before + label_bytes(l));
}

/// Append one frame.
fn put_frame(out: &mut Vec<u8>, f: &FrameWitness) -> (r: Result<(), WireError>)
    ensures
        match frame_complaint(f@) {
            Some(e) => r == Err::<(), _>(e),
            None => r is Ok && final(out)@ == old(out)@ + frame_bytes(f@),
        },
{
    let ghost start = out@;
    put_le(out, f.function as u64, 4);
    put_le(out, f.instruction as u64, 4);
    put_le(out, f.stack_base as u64, 4);
    put_le(out, f.arity as u64, 4);
    match put_values(out, &f.locals, "locals") {
        Ok(_) => {},
        Err(e) => return Err(e),
    }
    match put_count(out, f.labels.len(), "labels") {
        Ok(_) => {},
        Err(e) => return Err(e),
    }
    let ghost before = out@;
    let ghost encoder = |l: LabelWitness| label_bytes(l);
    let mut i: usize = 0;
    assert(f.labels@.take(0) =~= Seq::empty());
    assert(out@ =~= before + concat_all(f.labels@.take(0), encoder));
    while i < f.labels.len()
        invariant
            i <= f.labels@.len(),
            encoder == (|l: LabelWitness| label_bytes(l)),
            out@ == before + concat_all(f.labels@.take(i as int), encoder),
        decreases f.labels@.len() - i,
    {
        proof {
            lemma_concat_all_push(f.labels@, i as int, encoder);
        }
        put_label(out, f.labels[i]);
        i = i + 1;
        assert(out@ =~= before + concat_all(f.labels@.take(i as int), encoder));
    }
    assert(f.labels@.take(i as int) =~= f.labels@);
    assert(out@ =~= start + frame_bytes(f@));
    Ok(())
}

/// Append one page.
fn put_page(out: &mut Vec<u8>, p: &PageWitness) -> (r: Result<(), WireError>)
    ensures
        match page_complaint(p@) {
            Some(e) => r == Err::<(), _>(e),
            None => r is Ok && final(out)@ == old(out)@ + page_bytes(p@),
        },
{
    if p.bytes.len() != PAGE_SIZE {
        return Err(WireError::WrongPageLength { found: p.bytes.len() });
    }
    let ghost start = out@;
    put_le(out, p.index as u64, 4);
    put_bytes(out, p.bytes.as_slice());
    match put_count(out, p.path.len(), "proof siblings") {
        Ok(_) => {},
        Err(e) => return Err(e),
    }
    let ghost before = out@;
    let ghost encoder = |h: Digest| h@;
    let mut i: usize = 0;
    assert(p.path@.take(0) =~= Seq::empty());
    assert(out@ =~= before + concat_all(p.path@.take(0), encoder));
    while i < p.path.len()
        invariant
            i <= p.path@.len(),
            encoder == (|h: Digest| h@),
            out@ == before + concat_all(p.path@.take(i as int), encoder),
        decreases p.path@.len() - i,
    {
        proof {
            lemma_concat_all_push(p.path@, i as int, encoder);
        }
        put_bytes(out, p.path[i].as_slice());
        i = i + 1;
        assert(out@ =~= before + concat_all(p.path@.take(i as int), encoder));
    }
    assert(p.path@.take(i as int) =~= p.path@);
    assert(out@ =~= start + page_bytes(p@));
    Ok(())
}

/// A complaint about some of the items is a complaint about them all.
proof fn lemma_first_among<T>(
    items: Seq<T>,
    n: int,
    complaint: spec_fn(T) -> Option<WireError>,
)
    requires
        0 <= n <= items.len(),
        first_among(items.take(n), complaint) is Some,
    ensures
        first_among(items, complaint) == first_among(items.take(n), complaint),
    decreases items.len() - n,
{
    if n == items.len() {
        assert(items.take(n) =~= items);
    } else {
        assert(items.take(n + 1).drop_last() =~= items.take(n));
        lemma_first_among(items, n + 1, complaint);
    }
}

/// Append the frames.
fn put_frames(out: &mut Vec<u8>, frames: &Vec<FrameWitness>) -> (r: Result<(), WireError>)
    ensures
        ({
            let all = frames@.map_values(|f: FrameWitness| f@);
            match first_of(
                too_many(all.len(), "frames"),
                first_among(all, |f: FrameView| frame_complaint(f)),
            ) {
                Some(e) => r == Err::<(), _>(e),
                None => r is Ok && final(out)@ == old(out)@ + listed(
                    all,
                    |f: FrameView| frame_bytes(f),
                ),
            }
        }),
{
    let ghost start = out@;
    let ghost all = frames@.map_values(|f: FrameWitness| f@);
    match put_count(out, frames.len(), "frames") {
        Ok(_) => {},
        Err(e) => return Err(e),
    }
    let ghost before = out@;
    let ghost encoder = |f: FrameView| frame_bytes(f);
    let ghost objection = |f: FrameView| frame_complaint(f);
    let mut i: usize = 0;
    assert(all.take(0) =~= Seq::empty());
    assert(out@ =~= before + concat_all(all.take(0), encoder));
    while i < frames.len()
        invariant
            i <= frames@.len(),
            frames@.len() <= u32::MAX,
            all == frames@.map_values(|f: FrameWitness| f@),
            encoder == (|f: FrameView| frame_bytes(f)),
            objection == (|f: FrameView| frame_complaint(f)),
            out@ == before + concat_all(all.take(i as int), encoder),
            first_among(all.take(i as int), objection) is None,
        decreases frames@.len() - i,
    {
        proof {
            lemma_concat_all_push(all, i as int, encoder);
            assert(all.take(i + 1).drop_last() =~= all.take(i as int));
            assert(all[i as int] == frames@[i as int]@);
        }
        match put_frame(out, &frames[i]) {
            Ok(_) => {},
            Err(e) => {
                proof {
                    lemma_first_among(all, i + 1, objection);
                }
                return Err(e);
            },
        }
        i = i + 1;
        assert(out@ =~= before + concat_all(all.take(i as int), encoder));
    }
    assert(all.take(i as int) =~= all);
    assert(out@ =~= start + listed(all, encoder));
    Ok(())
}

/// Append the pages.
fn put_pages(out: &mut Vec<u8>, pages: &Vec<PageWitness>) -> (r: Result<(), WireError>)
    ensures
        ({
            let all = pages@.map_values(|p: PageWitness| p@);
            match first_of(
                too_many(all.len(), "pages"),
                first_among(all, |p: PageView| page_complaint(p)),
            ) {
                Some(e) => r == Err::<(), _>(e),
                None => r is Ok && final(out)@ == old(out)@ + listed(
                    all,
                    |p: PageView| page_bytes(p),
                ),
            }
        }),
{
    let ghost start = out@;
    let ghost all = pages@.map_values(|p: PageWitness| p@);
    match put_count(out, pages.len(), "pages") {
        Ok(_) => {},
        Err(e) => return Err(e),
    }
    let ghost before = out@;
    let ghost encoder = |p: PageView| page_bytes(p);
    let ghost objection = |p: PageView| page_complaint(p);
    let mut i: usize = 0;
    assert(all.take(0) =~= Seq::empty());
    assert(out@ =~= before + concat_all(all.take(0), encoder));
    while i < pages.len()
        invariant
            i <= pages@.len(),
            pages@.len() <= u32::MAX,
            all == pages@.map_values(|p: PageWitness| p@),
            encoder == (|p: PageView| page_bytes(p)),
            objection == (|p: PageView| page_complaint(p)),
            out@ == before + concat_all(all.take(i as int), encoder),
            first_among(all.take(i as int), objection) is None,
        decreases pages@.len() - i,
    {
        proof {
            lemma_concat_all_push(all, i as int, encoder);
            assert(all.take(i + 1).drop_last() =~= all.take(i as int));
            assert(all[i as int] == pages@[i as int]@);
        }
        match put_page(out, &pages[i]) {
            Ok(_) => {},
            Err(e) => {
                proof {
                    lemma_first_among(all, i + 1, objection);
                }
                return Err(e);
            },
        }
        i = i + 1;
        assert(out@ =~= before + concat_all(all.take(i as int), encoder));
    }
    assert(all.take(i as int) =~= all);
    assert(out@ =~= start + listed(all, encoder));
    Ok(())
}

/// Serialise a witness.
///
/// Fails with [`WireError::WrongPageLength`] if a page is not exactly [`PAGE_SIZE`] bytes, and
/// with [`WireError::TooLargeToEncode`] if some collection exceeds `u32`. Both mean the witness
/// was built wrongly by this process rather than that anything arrived badly.
pub fn encode(witness: &Witness) -> (r: Result<Vec<u8>, WireError>)
    ensures
        match complaint(witness@) {
            Some(e) => r == Err::<Vec<u8>, _>(e),
            None => r matches Ok(bytes) && bytes@ == encoding(witness@),
        },
{
    let mut out: Vec<u8> = Vec::new();
    let magic: [u8; 4] = MAGIC;
    put_bytes(&mut out, magic.as_slice());
    out.push(VERSION);
    let ghost head = out@;
    assert(head =~= MAGIC@ + seq![VERSION]);
    put_bytes(&mut out, witness.output.as_slice());
    match put_values(&mut out, &witness.globals, "globals") {
        Ok(_) => {},
        Err(e) => return Err(e),
    }
    match put_values(&mut out, &witness.operand_stack, "operand stack entries") {
        Ok(_) => {},
        Err(e) => return Err(e),
    }
    match put_frames(&mut out, &witness.frames) {
        Ok(_) => {},
        Err(e) => return Err(e),
    }
    assert(out@ =~= head + front_bytes(witness@));
    let ghost middle = out@;
    put_le(&mut out, witness.memory_pages as u64, 4);
    put_le(&mut out, witness.memory_max_pages as u64, 4);
    put_bytes(&mut out, witness.memory_root.as_slice());
    match put_pages(&mut out, &witness.pages) {
        Ok(_) => {},
        Err(e) => return Err(e),
    }
    match put_flags(&mut out, &witness.dropped_data, "dropped data segments") {
        Ok(_) => {},
        Err(e) => return Err(e),
    }
    match put_flags(&mut out, &witness.dropped_elements, "dropped element segments") {
        Ok(_) => {},
        Err(e) => return Err(e),
    }
    put_le(&mut out, witness.fuel.get(), 8);
    put_le(&mut out, witness.steps, 8);
    assert(out@ =~= middle + back_bytes(witness@));
    Ok(out)
}

/// A cursor that runs out of input rather than off the end of it.
struct Reader<'a> {
    bytes: &'a [u8],
    at: usize,
}

impl<'a> Reader<'a> {
    spec fn wf(&self) -> bool {
        self.at <= self.bytes@.len()
    }

    /// Bytes left.
    fn remaining(&self) -> (r: usize)
        requires
            self.wf(),
        ensures
            r == self.bytes@.len() - self.at,
    {
        self.bytes.len() - self.at
    }

    /// The next bytes.
    fn take(&mut self, reading: &'static str, n: usize) -> (r: Result<&'a [u8], WireError>)
        requires
            old(self).wf(),
        ensures
            final(self).wf(),
            final(self).bytes == old(self).bytes,
            match taken(old(self).bytes@, old(self).at as nat, n as nat, reading) {
                Ok((v, next)) => r matches Ok(x) && x@ == v && final(self).at == next,
                Err(e) => r == Err::<&'a [u8], _>(e),
            },
    {
        let size: usize = self.bytes.len();
        if n > size - self.at {
            return Err(WireError::Truncated { reading });
        }
        let part = vstd::slice::slice_subrange(self.bytes, self.at, self.at + n);
        self.at = self.at + n;
        Ok(part)
    }

    /// The next number, of up to eight bytes.
    fn number(&mut self, reading: &'static str, n: usize) -> (r: Result<u64, WireError>)
        requires
            old(self).wf(),
            n <= 8,
        ensures
            final(self).wf(),
            final(self).bytes == old(self).bytes,
            match number(old(self).bytes@, old(self).at as nat, n as nat, reading) {
                Ok((v, next)) => r matches Ok(x) && x == v && final(self).at == next,
                Err(e) => r == Err::<u64, _>(e),
            },
    {
        match self.take(reading, n) {
            Err(e) => Err(e),
            Ok(part) => {
                assert(part@.subrange(0, n as int) =~= part@);
                Ok(get_le(part, 0, n))
            },
        }
    }

    /// The next 32-bit number.
    fn u32(&mut self, reading: &'static str) -> (r: Result<u32, WireError>)
        requires
            old(self).wf(),
        ensures
            final(self).wf(),
            final(self).bytes == old(self).bytes,
            match number(old(self).bytes@, old(self).at as nat, 4, reading) {
                Ok((v, next)) => r matches Ok(x) && x == v && final(self).at == next,
                Err(e) => r == Err::<u32, _>(e),
            },
    {
        match self.number(reading, 4) {
            Err(e) => Err(e),
            Ok(n) => {
                proof {
                    lemma_number_bound(old(self).bytes@, old(self).at as nat, 4, reading);
                    lemma_pow256_values();
                }
                Ok(n as u32)
            },
        }
    }

    /// The next byte.
    fn u8(&mut self, reading: &'static str) -> (r: Result<u8, WireError>)
        requires
            old(self).wf(),
        ensures
            final(self).wf(),
            final(self).bytes == old(self).bytes,
            match number(old(self).bytes@, old(self).at as nat, 1, reading) {
                Ok((v, next)) => r matches Ok(x) && x == v && final(self).at == next,
                Err(e) => r == Err::<u8, _>(e),
            },
    {
        match self.number(reading, 1) {
            Err(e) => Err(e),
            Ok(n) => {
                proof {
                    lemma_number_bound(old(self).bytes@, old(self).at as nat, 1, reading);
                    lemma_pow256_values();
                }
                Ok(n as u8)
            },
        }
    }

    /// The next hash.
    fn hash(&mut self, reading: &'static str) -> (r: Result<Digest, WireError>)
        requires
            old(self).wf(),
        ensures
            final(self).wf(),
            final(self).bytes == old(self).bytes,
            match digest(old(self).bytes@, old(self).at as nat, reading) {
                Ok((v, next)) => r matches Ok(x) && x == v && final(self).at == next,
                Err(e) => r == Err::<Digest, _>(e),
            },
    {
        let part = match self.take(reading, DIGEST_SIZE) {
            Err(e) => return Err(e),
            Ok(part) => part,
        };
        let mut d: Digest = [0u8; 32];
        let mut i: usize = 0;
        while i < 32
            invariant
                i <= 32,
                part@.len() == 32,
                forall|k: int| 0 <= k < i ==> #[trigger] d@[k] == part@[k],
            decreases 32 - i,
        {
            d[i] = part[i];
            i = i + 1;
        }
        proof {
            assert(d@ =~= part@);
            let e = digest_of(part@);
            assert(e@ == part@);
            assert(e =~= d);
        }
        Ok(d)
    }

    /// A length prefix, refused unless the remaining input could hold it.
    fn count(&mut self, reading: &'static str, least: usize) -> (r: Result<usize, WireError>)
        requires
            old(self).wf(),
            1 <= least <= 0x10_0000,
        ensures
            final(self).wf(),
            final(self).bytes == old(self).bytes,
            match counted(old(self).bytes@, old(self).at as nat, reading, least as nat) {
                Ok((v, next)) => r matches Ok(x) && x == v && final(self).at == next,
                Err(e) => r == Err::<usize, _>(e),
            },
    {
        let claimed: u64 = match self.u32(reading) {
            Err(e) => return Err(e),
            Ok(n) => n as u64,
        };
        let remaining: usize = self.remaining();
        assert(0 <= claimed * least <= 0xffff_ffff * 0x10_0000) by (nonlinear_arith)
            requires
                claimed <= 0xffff_ffff,
                least <= 0x10_0000,
        ;
        if claimed * (least as u64) > remaining as u64 {
            return Err(WireError::ImplausibleCount { reading, claimed, remaining });
        }
        assert(claimed <= remaining) by (nonlinear_arith)
            requires
                claimed * least <= remaining,
                least >= 1,
                claimed >= 0,
        ;
        Ok(claimed as usize)
    }

    /// The next value.
    fn value(&mut self) -> (r: Result<Value, WireError>)
        requires
            old(self).wf(),
        ensures
            final(self).wf(),
            final(self).bytes == old(self).bytes,
            match value(old(self).bytes@, old(self).at as nat) {
                Ok((v, next)) => r matches Ok(x) && x == v && final(self).at == next,
                Err(e) => r == Err::<Value, _>(e),
            },
    {
        let tag: u8 = match self.u8("value tag") {
            Err(e) => return Err(e),
            Ok(n) => n,
        };
        let payload: u64 = match self.number("value payload", 8) {
            Err(e) => return Err(e),
            Ok(n) => n,
        };
        match tag {
            0 => Ok(Value::I32((payload as u32) as i32)),
            1 => Ok(Value::I64(payload as i64)),
            2 => Ok(Value::F32(payload as u32)),
            3 => Ok(Value::F64(payload)),
            tag => Err(WireError::UnknownValueTag { tag }),
        }
    }

    /// The next list of values.
    fn values(&mut self, reading: &'static str) -> (r: Result<Vec<Value>, WireError>)
        requires
            old(self).wf(),
        ensures
            final(self).wf(),
            final(self).bytes == old(self).bytes,
            match values(old(self).bytes@, old(self).at as nat, reading) {
                Ok((v, next)) => r matches Ok(x) && x@ == v && final(self).at == next,
                Err(e) => r == Err::<Vec<Value>, _>(e),
            },
    {
        let count: usize = match self.count(reading, VALUE_MIN) {
            Err(e) => return Err(e),
            Ok(n) => n,
        };
        let ghost start = self.at as nat;
        let ghost one = |b: Seq<u8>, at: nat| value(b, at);
        let mut items: Vec<Value> = Vec::new();
        let mut i: usize = 0;
        assert(items@ =~= Seq::empty());
        while i < count
            invariant
                self.wf(),
                self.bytes == old(self).bytes,
                i <= count,
                one == (|b: Seq<u8>, at: nat| value(b, at)),
                values(old(self).bytes@, old(self).at as nat, reading) == repeated(
                    self.bytes@,
                    start,
                    count as nat,
                    one,
                ),
                repeated(self.bytes@, start, i as nat, one) == Ok::<_, WireError>(
                    (items@, self.at as nat),
                ),
            decreases count - i,
        {
            match self.value() {
                Ok(v) => {
                    items.push(v);
                },
                Err(e) => {
                    proof {
                        lemma_repeated_fails(
                            self.bytes@,
                            start,
                            (i + 1) as nat,
                            count as nat,
                            one,
                            e,
                        );
                    }
                    return Err(e);
                },
            }
            i = i + 1;
        }
        Ok(items)
    }

    /// The next label.
    fn label(&mut self) -> (r: Result<LabelWitness, WireError>)
        requires
            old(self).wf(),
        ensures
            final(self).wf(),
            final(self).bytes == old(self).bytes,
            match label(old(self).bytes@, old(self).at as nat) {
                Ok((v, next)) => r matches Ok(x) && x == v && final(self).at == next,
                Err(e) => r == Err::<LabelWitness, _>(e),
            },
    {
        let branch_target: u32 = match self.u32("label target") {
            Err(e) => return Err(e),
            Ok(n) => n,
        };
        let arity: u32 = match self.u32("label arity") {
            Err(e) => return Err(e),
            Ok(n) => n,
        };
        let stack_height: u32 = match self.u32("label stack height") {
            Err(e) => return Err(e),
            Ok(n) => n,
        };
        let end: u32 = match self.u32("label end") {
            Err(e) => return Err(e),
            Ok(n) => n,
        };
        let kind: u8 = match self.u8("label kind") {
            Err(e) => return Err(e),
            Ok(n) => n,
        };
        Ok(LabelWitness { branch_target, arity, stack_height, end, is_loop: kind != 0 })
    }

    /// The next list of labels.
    fn labels(&mut self) -> (r: Result<Vec<LabelWitness>, WireError>)
        requires
            old(self).wf(),
        ensures
            final(self).wf(),
            final(self).bytes == old(self).bytes,
            match list(
                old(self).bytes@,
                old(self).at as nat,
                "labels",
                17,
                |b: Seq<u8>, at: nat| label(b, at),
            ) {
                Ok((v, next)) => r matches Ok(x) && x@ == v && final(self).at == next,
                Err(e) => r == Err::<Vec<LabelWitness>, _>(e),
            },
    {
        let count: usize = match self.count("labels", LABEL_MIN) {
            Err(e) => return Err(e),
            Ok(n) => n,
        };
        let ghost start = self.at as nat;
        let ghost one = |b: Seq<u8>, at: nat| label(b, at);
        let mut items: Vec<LabelWitness> = Vec::new();
        let mut i: usize = 0;
        assert(items@ =~= Seq::empty());
        while i < count
            invariant
                self.wf(),
                self.bytes == old(self).bytes,
                i <= count,
                one == (|b: Seq<u8>, at: nat| label(b, at)),
                list(
                    old(self).bytes@,
                    old(self).at as nat,
                    "labels",
                    17,
                    |b: Seq<u8>, at: nat| label(b, at),
                ) == repeated(self.bytes@, start, count as nat, one),
                repeated(self.bytes@, start, i as nat, one) == Ok::<_, WireError>(
                    (items@, self.at as nat),
                ),
            decreases count - i,
        {
            match self.label() {
                Ok(v) => {
                    items.push(v);
                },
                Err(e) => {
                    proof {
                        lemma_repeated_fails(
                            self.bytes@,
                            start,
                            (i + 1) as nat,
                            count as nat,
                            one,
                            e,
                        );
                    }
                    return Err(e);
                },
            }
            i = i + 1;
        }
        Ok(items)
    }

    /// The next frame.
    fn frame(&mut self) -> (r: Result<FrameWitness, WireError>)
        requires
            old(self).wf(),
        ensures
            final(self).wf(),
            final(self).bytes == old(self).bytes,
            match frame(old(self).bytes@, old(self).at as nat) {
                Ok((v, next)) => r matches Ok(x) && x@ == v && final(self).at == next,
                Err(e) => r == Err::<FrameWitness, _>(e),
            },
    {
        let function: u32 = match self.u32("frame function") {
            Err(e) => return Err(e),
            Ok(n) => n,
        };
        let instruction: u32 = match self.u32("frame instruction") {
            Err(e) => return Err(e),
            Ok(n) => n,
        };
        let stack_base: u32 = match self.u32("frame stack base") {
            Err(e) => return Err(e),
            Ok(n) => n,
        };
        let arity: u32 = match self.u32("frame arity") {
            Err(e) => return Err(e),
            Ok(n) => n,
        };
        let locals = match self.values("locals") {
            Err(e) => return Err(e),
            Ok(v) => v,
        };
        let labels = match self.labels() {
            Err(e) => return Err(e),
            Ok(v) => v,
        };
        Ok(FrameWitness { function, instruction, locals, stack_base, arity, labels })
    }

    /// The next list of frames.
    fn frames(&mut self) -> (r: Result<Vec<FrameWitness>, WireError>)
        requires
            old(self).wf(),
        ensures
            final(self).wf(),
            final(self).bytes == old(self).bytes,
            match list(
                old(self).bytes@,
                old(self).at as nat,
                "frames",
                24,
                |b: Seq<u8>, at: nat| frame(b, at),
            ) {
                Ok((v, next)) => r matches Ok(x) && x@.map_values(|x: FrameWitness| x@) == v && final(self).at == next,
                Err(e) => r == Err::<Vec<FrameWitness>, _>(e),
            },
    {
        let count: usize = match self.count("frames", FRAME_MIN) {
            Err(e) => return Err(e),
            Ok(n) => n,
        };
        let ghost start = self.at as nat;
        let ghost one = |b: Seq<u8>, at: nat| frame(b, at);
        let mut items: Vec<FrameWitness> = Vec::new();
        let mut i: usize = 0;
        assert(items@.map_values(|x: FrameWitness| x@) =~= Seq::empty());
        while i < count
            invariant
                self.wf(),
                self.bytes == old(self).bytes,
                i <= count,
                one == (|b: Seq<u8>, at: nat| frame(b, at)),
                list(
                    old(self).bytes@,
                    old(self).at as nat,
                    "frames",
                    24,
                    |b: Seq<u8>, at: nat| frame(b, at),
                ) == repeated(self.bytes@, start, count as nat, one),
                repeated(self.bytes@, start, i as nat, one) == Ok::<_, WireError>(
                    (items@.map_values(|x: FrameWitness| x@), self.at as nat),
                ),
            decreases count - i,
        {
            match self.frame() {
                Ok(v) => {
                    let ghost before = items@;
                    items.push(v);
                    assert(items@.map_values(|x: FrameWitness| x@) =~= before.map_values(|x: FrameWitness| x@).push(v@));
                },
                Err(e) => {
                    proof {
                        lemma_repeated_fails(
                            self.bytes@,
                            start,
                            (i + 1) as nat,
                            count as nat,
                            one,
                            e,
                        );
                    }
                    return Err(e);
                },
            }
            i = i + 1;
        }
        Ok(items)
    }

    /// The next list of sibling hashes.
    fn siblings(&mut self) -> (r: Result<Vec<Digest>, WireError>)
        requires
            old(self).wf(),
        ensures
            final(self).wf(),
            final(self).bytes == old(self).bytes,
            match list(
                old(self).bytes@,
                old(self).at as nat,
                "proof siblings",
                32,
                |b: Seq<u8>, at: nat| digest(b, at, "proof sibling"),
            ) {
                Ok((v, next)) => r matches Ok(x) && x@ == v && final(self).at == next,
                Err(e) => r == Err::<Vec<Digest>, _>(e),
            },
    {
        let count: usize = match self.count("proof siblings", DIGEST_SIZE) {
            Err(e) => return Err(e),
            Ok(n) => n,
        };
        let ghost start = self.at as nat;
        let ghost one = |b: Seq<u8>, at: nat| digest(b, at, "proof sibling");
        let mut items: Vec<Digest> = Vec::new();
        let mut i: usize = 0;
        assert(items@ =~= Seq::empty());
        while i < count
            invariant
                self.wf(),
                self.bytes == old(self).bytes,
                i <= count,
                one == (|b: Seq<u8>, at: nat| digest(b, at, "proof sibling")),
                list(
                    old(self).bytes@,
                    old(self).at as nat,
                    "proof siblings",
                    32,
                    |b: Seq<u8>, at: nat| digest(b, at, "proof sibling"),
                ) == repeated(self.bytes@, start, count as nat, one),
                repeated(self.bytes@, start, i as nat, one) == Ok::<_, WireError>(
                    (items@, self.at as nat),
                ),
            decreases count - i,
        {
            match self.hash("proof sibling") {
                Ok(v) => {
                    items.push(v);
                },
                Err(e) => {
                    proof {
                        lemma_repeated_fails(
                            self.bytes@,
                            start,
                            (i + 1) as nat,
                            count as nat,
                            one,
                            e,
                        );
                    }
                    return Err(e);
                },
            }
            i = i + 1;
        }
        Ok(items)
    }

    /// The next page.
    fn page(&mut self) -> (r: Result<PageWitness, WireError>)
        requires
            old(self).wf(),
        ensures
            final(self).wf(),
            final(self).bytes == old(self).bytes,
            match page(old(self).bytes@, old(self).at as nat) {
                Ok((v, next)) => r matches Ok(x) && x@ == v && final(self).at == next,
                Err(e) => r == Err::<PageWitness, _>(e),
            },
    {
        let index: u32 = match self.u32("page index") {
            Err(e) => return Err(e),
            Ok(n) => n,
        };
        let bytes: Vec<u8> = match self.take("page bytes", PAGE_SIZE) {
            Err(e) => return Err(e),
            Ok(part) => vstd::slice::slice_to_vec(part),
        };
        let path = match self.siblings() {
            Err(e) => return Err(e),
            Ok(v) => v,
        };
        Ok(PageWitness { index, bytes, path })
    }

    /// The next list of pages.
    fn pages(&mut self) -> (r: Result<Vec<PageWitness>, WireError>)
        requires
            old(self).wf(),
        ensures
            final(self).wf(),
            final(self).bytes == old(self).bytes,
            match list(
                old(self).bytes@,
                old(self).at as nat,
                "pages",
                65_544,
                |b: Seq<u8>, at: nat| page(b, at),
            ) {
                Ok((v, next)) => r matches Ok(x) && x@.map_values(|x: PageWitness| x@) == v && final(self).at == next,
                Err(e) => r == Err::<Vec<PageWitness>, _>(e),
            },
    {
        let count: usize = match self.count("pages", PAGE_MIN) {
            Err(e) => return Err(e),
            Ok(n) => n,
        };
        let ghost start = self.at as nat;
        let ghost one = |b: Seq<u8>, at: nat| page(b, at);
        let mut items: Vec<PageWitness> = Vec::new();
        let mut i: usize = 0;
        assert(items@.map_values(|x: PageWitness| x@) =~= Seq::empty());
        while i < count
            invariant
                self.wf(),
                self.bytes == old(self).bytes,
                i <= count,
                one == (|b: Seq<u8>, at: nat| page(b, at)),
                list(
                    old(self).bytes@,
                    old(self).at as nat,
                    "pages",
                    65_544,
                    |b: Seq<u8>, at: nat| page(b, at),
                ) == repeated(self.bytes@, start, count as nat, one),
                repeated(self.bytes@, start, i as nat, one) == Ok::<_, WireError>(
                    (items@.map_values(|x: PageWitness| x@), self.at as nat),
                ),
            decreases count - i,
        {
            match self.page() {
                Ok(v) => {
                    let ghost before = items@;
                    items.push(v);
                    assert(items@.map_values(|x: PageWitness| x@) =~= before.map_values(|x: PageWitness| x@).push(v@));
                },
                Err(e) => {
                    proof {
                        lemma_repeated_fails(
                            self.bytes@,
                            start,
                            (i + 1) as nat,
                            count as nat,
                            one,
                            e,
                        );
                    }
                    return Err(e);
                },
            }
            i = i + 1;
        }
        Ok(items)
    }

    /// The next list of flags.
    fn flags(&mut self, reading: &'static str) -> (r: Result<Vec<bool>, WireError>)
        requires
            old(self).wf(),
        ensures
            final(self).wf(),
            final(self).bytes == old(self).bytes,
            match flags(old(self).bytes@, old(self).at as nat, reading) {
                Ok((v, next)) => r matches Ok(x) && x@ == v && final(self).at == next,
                Err(e) => r == Err::<Vec<bool>, _>(e),
            },
    {
        let count: usize = match self.count(reading, 1) {
            Err(e) => return Err(e),
            Ok(n) => n,
        };
        let part = match self.take(reading, count) {
            Err(e) => return Err(e),
            Ok(part) => part,
        };
        let mut items: Vec<bool> = Vec::new();
        let mut i: usize = 0;
        while i < part.len()
            invariant
                i <= part@.len(),
                items@ == part@.take(i as int).map_values(|x: u8| x != 0),
            decreases part@.len() - i,
        {
            items.push(part[i] != 0);
            i = i + 1;
            assert(items@ =~= part@.take(i as int).map_values(|x: u8| x != 0));
        }
        assert(part@.take(i as int) =~= part@);
        Ok(items)
    }
}

/// A number read is as small as its bytes make it.
proof fn lemma_number_bound(b: Seq<u8>, at: nat, n: nat, reading: &'static str)
    ensures
        number(b, at, n, reading) matches Ok((v, next)) ==> v < pow256(n) && next == at + n,
{
    if at + n <= b.len() {
        lemma_le_value_bound(b.subrange(at as int, (at + n) as int));
    }
}

proof fn lemma_repeated_fails<T>(
    b: Seq<u8>,
    at: nat,
    k: nat,
    n: nat,
    one: spec_fn(Seq<u8>, nat) -> Parsed<T>,
    e: WireError,
)
    requires
        k <= n,
        repeated(b, at, k, one) == Err::<(Seq<T>, nat), _>(e),
    ensures
        repeated(b, at, n, one) == Err::<(Seq<T>, nat), _>(e),
    decreases n - k,
{
    if k < n {
        lemma_repeated_fails(b, at, k, (n - 1) as nat, one, e);
    }
}

/// Parse a witness produced by [`encode`], from bytes that may be anything at all.
///
/// The result is **not trusted** and is not meant to be: whether it describes the state the
/// parties agreed on is settled by [`crate::dispute::adjudicate`], which compares its commitment
/// against the agreed root.
pub fn decode(bytes: &[u8]) -> (r: Result<Witness, WireError>)
    ensures
        match decoded(bytes@) {
            Ok(w) => r matches Ok(witness) && witness@ == w,
            Err(e) => r == Err::<Witness, _>(e),
        },
{
    let mut r = Reader { bytes, at: 0 };
    let magic = match r.take("magic", 4) {
        Err(e) => return Err(e),
        Ok(part) => part,
    };
    let expected: [u8; 4] = MAGIC;
    assert(expected@ =~= MAGIC@);
    if magic[0] != expected[0] || magic[1] != expected[1] || magic[2] != expected[2] || magic[3]
        != expected[3] {
        return Err(WireError::NotAWitness);
    }
    assert(magic@ =~= MAGIC@);
    let version: u8 = match r.u8("version") {
        Err(e) => return Err(e),
        Ok(n) => n,
    };
    if version != VERSION {
        return Err(WireError::UnsupportedVersion { found: version });
    }
    let ghost at = r.at as nat;
    let output = match r.hash("output digest") {
        Err(e) => return Err(e),
        Ok(h) => h,
    };
    let globals = match r.values("globals") {
        Err(e) => return Err(e),
        Ok(v) => v,
    };
    let operand_stack = match r.values("operand stack") {
        Err(e) => return Err(e),
        Ok(v) => v,
    };
    let frames = match r.frames() {
        Err(e) => return Err(e),
        Ok(v) => v,
    };
    let ghost f = Front {
        output,
        globals: globals@,
        operand_stack: operand_stack@,
        frames: frames@.map_values(|x: FrameWitness| x@),
    };
    assert(front(bytes@, at) == Ok::<_, WireError>((f, r.at as nat)));
    let memory_pages: u32 = match r.u32("memory pages") {
        Err(e) => return Err(e),
        Ok(n) => n,
    };
    let memory_max_pages: u32 = match r.u32("memory ceiling") {
        Err(e) => return Err(e),
        Ok(n) => n,
    };
    let memory_root = match r.hash("memory root") {
        Err(e) => return Err(e),
        Ok(h) => h,
    };
    let pages = match r.pages() {
        Err(e) => return Err(e),
        Ok(v) => v,
    };
    let dropped_data = match r.flags("dropped data segments") {
        Err(e) => return Err(e),
        Ok(v) => v,
    };
    let dropped_elements = match r.flags("dropped element segments") {
        Err(e) => return Err(e),
        Ok(v) => v,
    };
    let fuel: u64 = match r.number("fuel", 8) {
        Err(e) => return Err(e),
        Ok(n) => n,
    };
    let steps: u64 = match r.number("steps", 8) {
        Err(e) => return Err(e),
        Ok(n) => n,
    };
    if r.remaining() != 0 {
        return Err(WireError::TrailingBytes { extra: r.remaining() });
    }
    Ok(
        Witness {
            output,
            globals,
            operand_stack,
            frames,
            memory_pages,
            memory_max_pages,
            memory_root,
            pages,
            dropped_data,
            dropped_elements,
            fuel: Fuel::new(fuel),
            steps,
        },
    )
}

/// Do some bytes hold others at a position?
pub open spec fn holds_at(b: Seq<u8>, at: nat, part: Seq<u8>) -> bool {
    at + part.len() <= b.len() && b.subrange(at as int, (at + part.len()) as int) == part
}

proof fn lemma_holds_parts(b: Seq<u8>, at: nat, x: Seq<u8>, y: Seq<u8>)
    requires
        holds_at(b, at, x + y),
    ensures
        holds_at(b, at, x),
        holds_at(b, at + x.len(), y),
{
    let whole = b.subrange(at as int, (at + (x + y).len()) as int);
    assert(b.subrange(at as int, (at + x.len()) as int) =~= whole.take(x.len() as int));
    assert((x + y).take(x.len() as int) =~= x);
    assert(b.subrange((at + x.len()) as int, (at + x.len() + y.len()) as int) =~= whole.skip(
        x.len() as int,
    ));
    assert((x + y).skip(x.len() as int) =~= y);
}

/// Does reading give back what was written?
spec fn reads_back<T>(
    one: spec_fn(Seq<u8>, nat) -> Parsed<T>,
    encoder: spec_fn(T) -> Seq<u8>,
    item: T,
) -> bool {
    forall|b: Seq<u8>, at: nat| #[trigger]
        holds_at(b, at, encoder(item)) ==> one(b, at) == Ok::<_, WireError>(
            (item, at + encoder(item).len()),
        )
}

proof fn lemma_number_back(b: Seq<u8>, at: nat, x: nat, n: nat, reading: &'static str)
    requires
        holds_at(b, at, le_bytes(x, n)),
        x < pow256(n),
    ensures
        number(b, at, n, reading) == Ok::<_, WireError>((x, at + n)),
{
    lemma_le_bytes_len(x, n);
    lemma_le_value_of_bytes(x, n);
}

proof fn lemma_byte_back(b: Seq<u8>, at: nat, x: u8, reading: &'static str)
    requires
        holds_at(b, at, seq![x]),
    ensures
        number(b, at, 1, reading) == Ok::<_, WireError>((x as nat, at + 1)),
{
    let part = b.subrange(at as int, (at + 1) as int);
    assert(part == seq![x]);
    assert(part.drop_first() =~= Seq::empty());
    reveal_with_fuel(le_value, 2);
}

proof fn lemma_digest_back(b: Seq<u8>, at: nat, d: Digest, reading: &'static str)
    requires
        holds_at(b, at, d@),
    ensures
        digest(b, at, reading) == Ok::<_, WireError>((d, at + 32)),
{
    let e = digest_of(d@);
    assert(e@ == d@);
    assert(e =~= d);
}

proof fn lemma_repeated_back<T>(
    b: Seq<u8>,
    at: nat,
    items: Seq<T>,
    one: spec_fn(Seq<u8>, nat) -> Parsed<T>,
    encoder: spec_fn(T) -> Seq<u8>,
)
    requires
        holds_at(b, at, concat_all(items, encoder)),
        forall|i: int| 0 <= i < items.len() ==> reads_back(one, encoder, #[trigger] items[i]),
    ensures
        repeated(b, at, items.len(), one) == Ok::<_, WireError>(
            (items, at + concat_all(items, encoder).len()),
        ),
    decreases items.len(),
{
    if items.len() > 0 {
        let (rest, last) = (items.drop_last(), items.last());
        lemma_holds_parts(b, at, concat_all(rest, encoder), encoder(last));
        assert forall|i: int| 0 <= i < rest.len() implies reads_back(
            one,
            encoder,
            #[trigger] rest[i],
        ) by {
            assert(rest[i] == items[i]);
        }
        lemma_repeated_back(b, at, rest, one, encoder);
        assert(reads_back(one, encoder, items[items.len() - 1]));
        assert(rest.push(last) =~= items);
    } else {
        assert(items =~= Seq::empty());
    }
}

proof fn lemma_least<T>(items: Seq<T>, encoder: spec_fn(T) -> Seq<u8>, least: nat)
    requires
        forall|i: int| 0 <= i < items.len() ==> encoder(#[trigger] items[i]).len() >= least,
    ensures
        concat_all(items, encoder).len() >= items.len() * least,
    decreases items.len(),
{
    if items.len() > 0 {
        let rest = items.drop_last();
        assert forall|i: int| 0 <= i < rest.len() implies encoder(#[trigger] rest[i]).len()
            >= least by {
            assert(rest[i] == items[i]);
        }
        lemma_least(rest, encoder, least);
        assert(encoder(items[items.len() - 1]).len() >= least);
        assert(items.len() * least == (items.len() - 1) * least + least) by (nonlinear_arith);
    } else {
        assert(items.len() * least == 0) by (nonlinear_arith)
            requires
                items.len() == 0,
        ;
    }
}

proof fn lemma_list_back<T>(
    b: Seq<u8>,
    at: nat,
    items: Seq<T>,
    reading: &'static str,
    least: nat,
    one: spec_fn(Seq<u8>, nat) -> Parsed<T>,
    encoder: spec_fn(T) -> Seq<u8>,
)
    requires
        holds_at(b, at, listed(items, encoder)),
        items.len() <= u32::MAX,
        forall|i: int|
            0 <= i < items.len() ==> reads_back(one, encoder, #[trigger] items[i]) && encoder(
                items[i],
            ).len() >= least,
    ensures
        list(b, at, reading, least, one) == Ok::<_, WireError>(
            (items, at + listed(items, encoder).len()),
        ),
{
    lemma_pow256_values();
    lemma_le_bytes_len(items.len(), 4);
    lemma_holds_parts(b, at, le_bytes(items.len(), 4), concat_all(items, encoder));
    lemma_number_back(b, at, items.len(), 4, reading);
    lemma_least(items, encoder, least);
    lemma_repeated_back(b, at + 4, items, one, encoder);
}

proof fn lemma_value_back(v: Value)
    ensures
        reads_back(|b: Seq<u8>, at: nat| value(b, at), |v: Value| value_bytes(v), v),
        value_bytes(v).len() == 9,
{
    lemma_pow256_values();
    let (tag, payload): (u8, u64) = match v {
        Value::I32(n) => (0u8, (n as u32) as u64),
        Value::I64(n) => (1u8, n as u64),
        Value::F32(bits) => (2u8, bits as u64),
        Value::F64(bits) => (3u8, bits),
    };
    assert(value_bytes(v) == seq![tag] + le_bytes(payload as nat, 8));
    lemma_le_bytes_len(payload as nat, 8);
    assert forall|b: Seq<u8>, at: nat| #[trigger] holds_at(b, at, value_bytes(v)) implies value(
        b,
        at,
    ) == Ok::<_, WireError>((v, at + 9)) by {
        lemma_holds_parts(b, at, seq![tag], le_bytes(payload as nat, 8));
        lemma_byte_back(b, at, tag, "value tag");
        lemma_number_back(b, at + 1, payload as nat, 8, "value payload");
        if let Value::I32(n) = v {
            assert((((n as u32) as u64) as u32) as i32 == n) by (bit_vector);
        }
        if let Value::I64(n) = v {
            assert((n as u64) as i64 == n) by (bit_vector);
        }
    }
}

proof fn lemma_values_back(b: Seq<u8>, at: nat, items: Seq<Value>, reading: &'static str)
    requires
        holds_at(b, at, values_bytes(items)),
        items.len() <= u32::MAX,
    ensures
        values(b, at, reading) == Ok::<_, WireError>((items, at + values_bytes(items).len())),
{
    assert forall|i: int| 0 <= i < items.len() implies reads_back(
        |b: Seq<u8>, at: nat| value(b, at),
        |v: Value| value_bytes(v),
        #[trigger] items[i],
    ) && value_bytes(items[i]).len() >= 9 by {
        lemma_value_back(items[i]);
    }
    lemma_list_back(
        b,
        at,
        items,
        reading,
        9,
        |b: Seq<u8>, at: nat| value(b, at),
        |v: Value| value_bytes(v),
    );
}

proof fn lemma_label_back(l: LabelWitness)
    ensures
        reads_back(|b: Seq<u8>, at: nat| label(b, at), |l: LabelWitness| label_bytes(l), l),
        label_bytes(l).len() == 17,
{
    lemma_pow256_values();
    let (a1, a2, a3, a4, a5) = (
        le_bytes(l.branch_target as nat, 4),
        le_bytes(l.arity as nat, 4),
        le_bytes(l.stack_height as nat, 4),
        le_bytes(l.end as nat, 4),
        seq![flag_byte(l.is_loop)],
    );
    lemma_le_bytes_len(l.branch_target as nat, 4);
    lemma_le_bytes_len(l.arity as nat, 4);
    lemma_le_bytes_len(l.stack_height as nat, 4);
    lemma_le_bytes_len(l.end as nat, 4);
    assert forall|b: Seq<u8>, at: nat| #[trigger] holds_at(b, at, label_bytes(l)) implies label(
        b,
        at,
    ) == Ok::<_, WireError>((l, at + 17)) by {
        lemma_holds_parts(b, at, a1 + a2 + a3 + a4, a5);
        lemma_holds_parts(b, at, a1 + a2 + a3, a4);
        lemma_holds_parts(b, at, a1 + a2, a3);
        lemma_holds_parts(b, at, a1, a2);
        lemma_number_back(b, at, l.branch_target as nat, 4, "label target");
        lemma_number_back(b, at + 4, l.arity as nat, 4, "label arity");
        lemma_number_back(b, at + 8, l.stack_height as nat, 4, "label stack height");
        lemma_number_back(b, at + 12, l.end as nat, 4, "label end");
        lemma_byte_back(b, at + 16, flag_byte(l.is_loop), "label kind");
    }
}

proof fn lemma_frame_back(f: FrameView)
    requires
        frame_complaint(f) is None,
    ensures
        reads_back(|b: Seq<u8>, at: nat| frame(b, at), |f: FrameView| frame_bytes(f), f),
        frame_bytes(f).len() >= 24,
{
    lemma_pow256_values();
    let labels = listed(f.labels, |l: LabelWitness| label_bytes(l));
    let (a1, a2, a3, a4, a5) = (
        le_bytes(f.function as nat, 4),
        le_bytes(f.pc as nat, 4),
        le_bytes(f.stack_base as nat, 4),
        le_bytes(f.arity as nat, 4),
        values_bytes(f.locals),
    );
    lemma_le_bytes_len(f.function as nat, 4);
    lemma_le_bytes_len(f.pc as nat, 4);
    lemma_le_bytes_len(f.stack_base as nat, 4);
    lemma_le_bytes_len(f.arity as nat, 4);
    lemma_le_bytes_len(f.locals.len(), 4);
    lemma_le_bytes_len(f.labels.len(), 4);
    assert forall|b: Seq<u8>, at: nat| #[trigger] holds_at(b, at, frame_bytes(f)) implies frame(
        b,
        at,
    ) == Ok::<_, WireError>((f, at + frame_bytes(f).len())) by {
        lemma_holds_parts(b, at, a1 + a2 + a3 + a4 + a5, labels);
        lemma_holds_parts(b, at, a1 + a2 + a3 + a4, a5);
        lemma_holds_parts(b, at, a1 + a2 + a3, a4);
        lemma_holds_parts(b, at, a1 + a2, a3);
        lemma_holds_parts(b, at, a1, a2);
        lemma_number_back(b, at, f.function as nat, 4, "frame function");
        lemma_number_back(b, at + 4, f.pc as nat, 4, "frame instruction");
        lemma_number_back(b, at + 8, f.stack_base as nat, 4, "frame stack base");
        lemma_number_back(b, at + 12, f.arity as nat, 4, "frame arity");
        lemma_values_back(b, at + 16, f.locals, "locals");
        assert forall|i: int| 0 <= i < f.labels.len() implies reads_back(
            |b: Seq<u8>, at: nat| label(b, at),
            |l: LabelWitness| label_bytes(l),
            #[trigger] f.labels[i],
        ) && label_bytes(f.labels[i]).len() >= 17 by {
            lemma_label_back(f.labels[i]);
        }
        lemma_list_back(
            b,
            at + 16 + a5.len(),
            f.labels,
            "labels",
            17,
            |b: Seq<u8>, at: nat| label(b, at),
            |l: LabelWitness| label_bytes(l),
        );
    }
}

proof fn lemma_page_back(p: PageView)
    requires
        page_complaint(p) is None,
    ensures
        reads_back(|b: Seq<u8>, at: nat| page(b, at), |p: PageView| page_bytes(p), p),
        page_bytes(p).len() >= 65_544,
{
    lemma_pow256_values();
    let path = listed(p.path, |h: Digest| h@);
    let index = le_bytes(p.index as nat, 4);
    lemma_le_bytes_len(p.index as nat, 4);
    lemma_le_bytes_len(p.path.len(), 4);
    assert forall|b: Seq<u8>, at: nat| #[trigger] holds_at(b, at, page_bytes(p)) implies page(
        b,
        at,
    ) == Ok::<_, WireError>((p, at + page_bytes(p).len())) by {
        lemma_holds_parts(b, at, index + p.bytes, path);
        lemma_holds_parts(b, at, index, p.bytes);
        lemma_number_back(b, at, p.index as nat, 4, "page index");
        let one = |b: Seq<u8>, at: nat| digest(b, at, "proof sibling");
        let encoder = |h: Digest| h@;
        assert forall|i: int| 0 <= i < p.path.len() implies reads_back(
            one,
            encoder,
            #[trigger] p.path[i],
        ) && encoder(p.path[i]).len() >= 32 by {
            let d = p.path[i];
            assert forall|b: Seq<u8>, at: nat| #[trigger] holds_at(b, at, encoder(d)) implies one(
                b,
                at,
            ) == Ok::<_, WireError>((d, at + encoder(d).len())) by {
                lemma_digest_back(b, at, d, "proof sibling");
            }
        }
        lemma_list_back(
            b,
            at + 4 + PAGE_SIZE as nat,
            p.path,
            "proof siblings",
            32,
            |b: Seq<u8>, at: nat| digest(b, at, "proof sibling"),
            |h: Digest| h@,
        );
    }
}

proof fn lemma_flags_bytes(items: Seq<bool>)
    ensures
        concat_all(items, |f: bool| seq![flag_byte(f)]) == items.map_values(
            |f: bool| flag_byte(f),
        ),
    decreases items.len(),
{
    let encoder = |f: bool| seq![flag_byte(f)];
    if items.len() > 0 {
        lemma_flags_bytes(items.drop_last());
        assert(concat_all(items, encoder) =~= items.map_values(|f: bool| flag_byte(f)));
    } else {
        assert(concat_all(items, encoder) =~= items.map_values(|f: bool| flag_byte(f)));
    }
}

proof fn lemma_flags_back(b: Seq<u8>, at: nat, items: Seq<bool>, reading: &'static str)
    requires
        holds_at(b, at, flags_bytes(items)),
        items.len() <= u32::MAX,
    ensures
        flags(b, at, reading) == Ok::<_, WireError>((items, at + flags_bytes(items).len())),
{
    lemma_pow256_values();
    lemma_flags_bytes(items);
    lemma_le_bytes_len(items.len(), 4);
    let body = concat_all(items, |f: bool| seq![flag_byte(f)]);
    lemma_holds_parts(b, at, le_bytes(items.len(), 4), body);
    lemma_number_back(b, at, items.len(), 4, reading);
    assert(body.map_values(|x: u8| x != 0) =~= items);
}

proof fn lemma_none_among<T>(items: Seq<T>, complaint: spec_fn(T) -> Option<WireError>)
    requires
        first_among(items, complaint) is None,
    ensures
        forall|i: int| 0 <= i < items.len() ==> complaint(#[trigger] items[i]) is None,
    decreases items.len(),
{
    if items.len() > 0 {
        lemma_none_among(items.drop_last(), complaint);
        assert forall|i: int| 0 <= i < items.len() implies complaint(
            #[trigger] items[i],
        ) is None by {
            if i < items.len() - 1 {
                assert(items.drop_last()[i] == items[i]);
            }
        }
    }
}

proof fn lemma_front_back(b: Seq<u8>, at: nat, w: WitnessView)
    requires
        complaint(w) is None,
        holds_at(b, at, front_bytes(w)),
    ensures
        front(b, at) == Ok::<_, WireError>(
            (
                Front {
                    output: w.output,
                    globals: w.globals,
                    operand_stack: w.operand_stack,
                    frames: w.frames,
                },
                at + front_bytes(w).len(),
            ),
        ),
{
    let (a1, a2, a3) = (w.output@, values_bytes(w.globals), values_bytes(w.operand_stack));
    let a4 = listed(w.frames, |f: FrameView| frame_bytes(f));
    lemma_holds_parts(b, at, a1 + a2 + a3, a4);
    lemma_holds_parts(b, at, a1 + a2, a3);
    lemma_holds_parts(b, at, a1, a2);
    lemma_digest_back(b, at, w.output, "output digest");
    lemma_values_back(b, at + 32, w.globals, "globals");
    lemma_values_back(b, at + 32 + a2.len(), w.operand_stack, "operand stack");
    lemma_none_among(w.frames, |f: FrameView| frame_complaint(f));
    assert forall|i: int| 0 <= i < w.frames.len() implies reads_back(
        |b: Seq<u8>, at: nat| frame(b, at),
        |f: FrameView| frame_bytes(f),
        #[trigger] w.frames[i],
    ) && frame_bytes(w.frames[i]).len() >= 24 by {
        lemma_frame_back(w.frames[i]);
    }
    lemma_list_back(
        b,
        at + 32 + a2.len() + a3.len(),
        w.frames,
        "frames",
        24,
        |b: Seq<u8>, at: nat| frame(b, at),
        |f: FrameView| frame_bytes(f),
    );
}

proof fn lemma_back_back(b: Seq<u8>, at: nat, w: WitnessView)
    requires
        complaint(w) is None,
        holds_at(b, at, back_bytes(w)),
    ensures
        back(b, at) == Ok::<_, WireError>(
            (
                Back {
                    memory_pages: w.memory_pages,
                    memory_max_pages: w.memory_max_pages,
                    memory_root: w.memory_root,
                    pages: w.pages,
                    dropped_data: w.dropped_data,
                    dropped_elements: w.dropped_elements,
                    fuel: w.fuel,
                    steps: w.steps,
                },
                at + back_bytes(w).len(),
            ),
        ),
{
    lemma_pow256_values();
    let (a1, a2, a3) = (
        le_bytes(w.memory_pages as nat, 4),
        le_bytes(w.memory_max_pages as nat, 4),
        w.memory_root@,
    );
    let a4 = listed(w.pages, |p: PageView| page_bytes(p));
    let (a5, a6) = (flags_bytes(w.dropped_data), flags_bytes(w.dropped_elements));
    let (a7, a8) = (le_bytes(w.fuel.0 as nat, 8), le_bytes(w.steps as nat, 8));
    lemma_le_bytes_len(w.memory_pages as nat, 4);
    lemma_le_bytes_len(w.memory_max_pages as nat, 4);
    lemma_le_bytes_len(w.fuel.0 as nat, 8);
    lemma_le_bytes_len(w.steps as nat, 8);
    lemma_holds_parts(b, at, a1 + a2 + a3 + a4 + a5 + a6 + a7, a8);
    lemma_holds_parts(b, at, a1 + a2 + a3 + a4 + a5 + a6, a7);
    lemma_holds_parts(b, at, a1 + a2 + a3 + a4 + a5, a6);
    lemma_holds_parts(b, at, a1 + a2 + a3 + a4, a5);
    lemma_holds_parts(b, at, a1 + a2 + a3, a4);
    lemma_holds_parts(b, at, a1 + a2, a3);
    lemma_holds_parts(b, at, a1, a2);
    lemma_number_back(b, at, w.memory_pages as nat, 4, "memory pages");
    lemma_number_back(b, at + 4, w.memory_max_pages as nat, 4, "memory ceiling");
    lemma_digest_back(b, at + 8, w.memory_root, "memory root");
    lemma_none_among(w.pages, |p: PageView| page_complaint(p));
    assert forall|i: int| 0 <= i < w.pages.len() implies reads_back(
        |b: Seq<u8>, at: nat| page(b, at),
        |p: PageView| page_bytes(p),
        #[trigger] w.pages[i],
    ) && page_bytes(w.pages[i]).len() >= 65_544 by {
        lemma_page_back(w.pages[i]);
    }
    lemma_list_back(
        b,
        at + 40,
        w.pages,
        "pages",
        65_544,
        |b: Seq<u8>, at: nat| page(b, at),
        |p: PageView| page_bytes(p),
    );
    let here = at + 40 + a4.len();
    lemma_flags_back(b, here, w.dropped_data, "dropped data segments");
    lemma_flags_back(b, here + a5.len(), w.dropped_elements, "dropped element segments");
    lemma_number_back(b, here + a5.len() + a6.len(), w.fuel.0 as nat, 8, "fuel");
    lemma_number_back(b, here + a5.len() + a6.len() + 8, w.steps as nat, 8, "steps");
}

/// Every witness that can be encoded is decoded again as it was.
pub proof fn law_decoding_undoes_encoding(w: WitnessView)
    requires
        complaint(w) is None,
    ensures
        decoded(encoding(w)) == Ok::<_, WireError>(w),
{
    let b = encoding(w);
    let head = MAGIC@ + seq![VERSION];
    assert(b.subrange(0, b.len() as int) =~= b);
    lemma_holds_parts(b, 0, head + front_bytes(w), back_bytes(w));
    lemma_holds_parts(b, 0, head, front_bytes(w));
    lemma_holds_parts(b, 0, MAGIC@, seq![VERSION]);
    lemma_byte_back(b, 4, VERSION, "version");
    lemma_front_back(b, 5, w);
    lemma_back_back(b, 5 + front_bytes(w).len(), w);
}

/// Two different witnesses never share an encoding.
pub proof fn law_encodings_differ(v: WitnessView, w: WitnessView)
    requires
        complaint(v) is None,
        complaint(w) is None,
        encoding(v) == encoding(w),
    ensures
        v == w,
{
    law_decoding_undoes_encoding(v);
    law_decoding_undoes_encoding(w);
}

/// Is what is read the same, whatever follows it?
spec fn is_local<T>(one: spec_fn(Seq<u8>, nat) -> Parsed<T>) -> bool {
    forall|b: Seq<u8>, c: Seq<u8>, at: nat|
        b.is_prefix_of(c) && #[trigger] one(b, at) is Ok ==> #[trigger] one(c, at) == one(b, at)
}

proof fn lemma_taken_local(b: Seq<u8>, c: Seq<u8>, at: nat, n: nat, reading: &'static str)
    requires
        b.is_prefix_of(c),
        taken(b, at, n, reading) is Ok,
    ensures
        taken(c, at, n, reading) == taken(b, at, n, reading),
{
    assert(b.subrange(at as int, (at + n) as int) =~= c.subrange(at as int, (at + n) as int));
}

proof fn lemma_number_local(b: Seq<u8>, c: Seq<u8>, at: nat, n: nat, reading: &'static str)
    requires
        b.is_prefix_of(c),
        number(b, at, n, reading) is Ok,
    ensures
        number(c, at, n, reading) == number(b, at, n, reading),
{
    lemma_taken_local(b, c, at, n, reading);
}

proof fn lemma_counted_local(b: Seq<u8>, c: Seq<u8>, at: nat, reading: &'static str, least: nat)
    requires
        b.is_prefix_of(c),
        counted(b, at, reading, least) is Ok,
    ensures
        counted(c, at, reading, least) == counted(b, at, reading, least),
{
    lemma_number_local(b, c, at, 4, reading);
}

proof fn lemma_repeated_local<T>(
    b: Seq<u8>,
    c: Seq<u8>,
    at: nat,
    count: nat,
    one: spec_fn(Seq<u8>, nat) -> Parsed<T>,
)
    requires
        b.is_prefix_of(c),
        is_local(one),
        repeated(b, at, count, one) is Ok,
    ensures
        repeated(c, at, count, one) == repeated(b, at, count, one),
    decreases count,
{
    if count > 0 {
        lemma_repeated_local(b, c, at, (count - 1) as nat, one);
        let next = repeated(b, at, (count - 1) as nat, one)->Ok_0.1;
        assert(one(c, next) == one(b, next));
    }
}

proof fn lemma_list_local<T>(
    b: Seq<u8>,
    c: Seq<u8>,
    at: nat,
    reading: &'static str,
    least: nat,
    one: spec_fn(Seq<u8>, nat) -> Parsed<T>,
)
    requires
        b.is_prefix_of(c),
        is_local(one),
        list(b, at, reading, least, one) is Ok,
    ensures
        list(c, at, reading, least, one) == list(b, at, reading, least, one),
{
    lemma_counted_local(b, c, at, reading, least);
    let (count, next) = counted(b, at, reading, least)->Ok_0;
    lemma_repeated_local(b, c, next, count, one);
}

proof fn lemma_value_local()
    ensures
        is_local(|b: Seq<u8>, at: nat| value(b, at)),
{
    assert forall|b: Seq<u8>, c: Seq<u8>, at: nat|
        b.is_prefix_of(c) && #[trigger] value(b, at) is Ok implies #[trigger] value(c, at)
        == value(b, at) by {
        lemma_number_local(b, c, at, 1, "value tag");
        lemma_number_local(b, c, at + 1, 8, "value payload");
    }
}

proof fn lemma_values_local(b: Seq<u8>, c: Seq<u8>, at: nat, reading: &'static str)
    requires
        b.is_prefix_of(c),
        values(b, at, reading) is Ok,
    ensures
        values(c, at, reading) == values(b, at, reading),
{
    lemma_value_local();
    lemma_list_local(b, c, at, reading, 9, |b: Seq<u8>, at: nat| value(b, at));
}

proof fn lemma_label_local()
    ensures
        is_local(|b: Seq<u8>, at: nat| label(b, at)),
{
    assert forall|b: Seq<u8>, c: Seq<u8>, at: nat|
        b.is_prefix_of(c) && #[trigger] label(b, at) is Ok implies #[trigger] label(c, at)
        == label(b, at) by {
        lemma_number_local(b, c, at, 4, "label target");
        lemma_number_local(b, c, at + 4, 4, "label arity");
        lemma_number_local(b, c, at + 8, 4, "label stack height");
        lemma_number_local(b, c, at + 12, 4, "label end");
        lemma_number_local(b, c, at + 16, 1, "label kind");
    }
}

proof fn lemma_frame_local()
    ensures
        is_local(|b: Seq<u8>, at: nat| frame(b, at)),
{
    assert forall|b: Seq<u8>, c: Seq<u8>, at: nat|
        b.is_prefix_of(c) && #[trigger] frame(b, at) is Ok implies #[trigger] frame(c, at)
        == frame(b, at) by {
        lemma_number_local(b, c, at, 4, "frame function");
        lemma_number_local(b, c, at + 4, 4, "frame instruction");
        lemma_number_local(b, c, at + 8, 4, "frame stack base");
        lemma_number_local(b, c, at + 12, 4, "frame arity");
        lemma_values_local(b, c, at + 16, "locals");
        lemma_label_local();
        let next = values(b, at + 16, "locals")->Ok_0.1;
        lemma_list_local(b, c, next, "labels", 17, |b: Seq<u8>, at: nat| label(b, at));
    }
}

proof fn lemma_digest_local(reading: &'static str)
    ensures
        is_local(|b: Seq<u8>, at: nat| digest(b, at, reading)),
{
    assert forall|b: Seq<u8>, c: Seq<u8>, at: nat|
        b.is_prefix_of(c) && #[trigger] digest(b, at, reading) is Ok implies #[trigger] digest(
        c,
        at,
        reading,
    ) == digest(b, at, reading) by {
        lemma_taken_local(b, c, at, 32, reading);
    }
}

proof fn lemma_page_local()
    ensures
        is_local(|b: Seq<u8>, at: nat| page(b, at)),
{
    assert forall|b: Seq<u8>, c: Seq<u8>, at: nat|
        b.is_prefix_of(c) && #[trigger] page(b, at) is Ok implies #[trigger] page(c, at) == page(
        b,
        at,
    ) by {
        lemma_number_local(b, c, at, 4, "page index");
        lemma_taken_local(b, c, at + 4, PAGE_SIZE as nat, "page bytes");
        lemma_digest_local("proof sibling");
        lemma_list_local(
            b,
            c,
            at + 4 + PAGE_SIZE as nat,
            "proof siblings",
            32,
            |b: Seq<u8>, at: nat| digest(b, at, "proof sibling"),
        );
    }
}

proof fn lemma_flags_local(b: Seq<u8>, c: Seq<u8>, at: nat, reading: &'static str)
    requires
        b.is_prefix_of(c),
        flags(b, at, reading) is Ok,
    ensures
        flags(c, at, reading) == flags(b, at, reading),
{
    lemma_counted_local(b, c, at, reading, 1);
    let (count, next) = counted(b, at, reading, 1)->Ok_0;
    lemma_taken_local(b, c, next, count, reading);
}

proof fn lemma_header_local(b: Seq<u8>, c: Seq<u8>)
    requires
        b.is_prefix_of(c),
        header(b) is Ok,
    ensures
        header(c) == header(b),
{
    lemma_taken_local(b, c, 0, 4, "magic");
    lemma_number_local(b, c, 4, 1, "version");
}

proof fn lemma_front_local(b: Seq<u8>, c: Seq<u8>, at: nat)
    requires
        b.is_prefix_of(c),
        front(b, at) is Ok,
    ensures
        front(c, at) == front(b, at),
{
    lemma_taken_local(b, c, at, 32, "output digest");
    lemma_values_local(b, c, at + 32, "globals");
    let next = values(b, at + 32, "globals")->Ok_0.1;
    lemma_values_local(b, c, next, "operand stack");
    let next = values(b, next, "operand stack")->Ok_0.1;
    lemma_frame_local();
    lemma_list_local(b, c, next, "frames", 24, |b: Seq<u8>, at: nat| frame(b, at));
}

proof fn lemma_back_local(b: Seq<u8>, c: Seq<u8>, at: nat)
    requires
        b.is_prefix_of(c),
        back(b, at) is Ok,
    ensures
        back(c, at) == back(b, at),
{
    lemma_number_local(b, c, at, 4, "memory pages");
    lemma_number_local(b, c, at + 4, 4, "memory ceiling");
    lemma_taken_local(b, c, at + 8, 32, "memory root");
    let next = memory_fields(b, at)->Ok_0.1;
    lemma_page_local();
    lemma_list_local(b, c, next, "pages", 65_544, |b: Seq<u8>, at: nat| page(b, at));
    let next = list(b, next, "pages", 65_544, |b: Seq<u8>, at: nat| page(b, at))->Ok_0.1;
    lemma_flags_local(b, c, next, "dropped data segments");
    let next = flags(b, next, "dropped data segments")->Ok_0.1;
    lemma_flags_local(b, c, next, "dropped element segments");
    let next = flags(b, next, "dropped element segments")->Ok_0.1;
    lemma_number_local(b, c, next, 8, "fuel");
    lemma_number_local(b, c, next + 8, 8, "steps");
}

/// Bytes that are a witness stop being one when anything follows, and what follows is what is
/// complained about.
pub proof fn law_trailing_bytes_are_refused(b: Seq<u8>, c: Seq<u8>)
    requires
        b.is_prefix_of(c),
        b.len() < c.len() <= usize::MAX,
        decoded(b) is Ok,
    ensures
        decoded(c) == Err::<WitnessView, _>(
            WireError::TrailingBytes { extra: (c.len() - b.len()) as usize },
        ),
{
    lemma_header_local(b, c);
    let at = header(b)->Ok_0.1;
    lemma_front_local(b, c, at);
    let at = front(b, at)->Ok_0.1;
    lemma_back_local(b, c, at);
    lemma_back_ends(b, at);
}

/// Nothing is read past the end.
proof fn lemma_back_ends(b: Seq<u8>, at: nat)
    ensures
        back(b, at) matches Ok((k, next)) ==> next <= b.len(),
{
}

/// No proper prefix of an encoding is a witness.
pub proof fn law_a_truncated_witness_is_refused(w: WitnessView, cut: nat)
    requires
        complaint(w) is None,
        cut < encoding(w).len() <= usize::MAX,
    ensures
        decoded(encoding(w).take(cut as int)) is Err,
{
    let (b, c) = (encoding(w).take(cut as int), encoding(w));
    law_decoding_undoes_encoding(w);
    if decoded(b) is Ok {
        assert(b.is_prefix_of(c));
        law_trailing_bytes_are_refused(b, c);
    }
}

proof fn lemma_count_is_small(b: Seq<u8>, at: nat, reading: &'static str, least: nat)
    ensures
        counted(b, at, reading, least) matches Ok((n, _)) ==> n <= u32::MAX,
{
    if let Ok((bytes, next)) = taken(b, at, 4, reading) {
        lemma_le_value_bound(bytes);
        lemma_pow256_values();
    }
}

/// Everything in a list that was read passes any test that everything read passes.
proof fn lemma_repeated_passes<T>(
    b: Seq<u8>,
    at: nat,
    count: nat,
    one: spec_fn(Seq<u8>, nat) -> Parsed<T>,
    complaint: spec_fn(T) -> Option<WireError>,
)
    requires
        forall|p: nat| (#[trigger] one(b, p)) matches Ok((t, _)) ==> complaint(t) is None,
    ensures
        repeated(b, at, count, one) matches Ok((items, _)) ==> items.len() == count && first_among(
            items,
            complaint,
        ) is None,
    decreases count,
{
    if count > 0 {
        lemma_repeated_passes(b, at, (count - 1) as nat, one, complaint);
        if let Ok((items, next)) = repeated(b, at, (count - 1) as nat, one) {
            if let Ok((item, end)) = one(b, next) {
                assert(items.push(item).drop_last() =~= items);
            }
        }
    }
}

proof fn lemma_list_is_small<T>(
    b: Seq<u8>,
    at: nat,
    reading: &'static str,
    least: nat,
    one: spec_fn(Seq<u8>, nat) -> Parsed<T>,
    complaint: spec_fn(T) -> Option<WireError>,
)
    requires
        forall|p: nat| (#[trigger] one(b, p)) matches Ok((t, _)) ==> complaint(t) is None,
    ensures
        list(b, at, reading, least, one) matches Ok((items, _)) ==> items.len() <= u32::MAX
            && first_among(items, complaint) is None,
{
    lemma_count_is_small(b, at, reading, least);
    if let Ok((count, next)) = counted(b, at, reading, least) {
        lemma_repeated_passes(b, next, count, one, complaint);
    }
}

proof fn lemma_values_are_few(b: Seq<u8>, at: nat, reading: &'static str)
    ensures
        values(b, at, reading) matches Ok((items, _)) ==> items.len() <= u32::MAX,
{
    lemma_list_is_small(
        b,
        at,
        reading,
        9,
        |b: Seq<u8>, at: nat| value(b, at),
        |v: Value| None,
    );
}

proof fn lemma_frame_passes(b: Seq<u8>, at: nat)
    ensures
        frame(b, at) matches Ok((f, _)) ==> frame_complaint(f) is None,
{
    lemma_values_are_few(b, at + 16, "locals");
    if let Ok((_, next)) = values(b, at + 16, "locals") {
        lemma_list_is_small(
            b,
            next,
            "labels",
            17,
            |b: Seq<u8>, at: nat| label(b, at),
            |l: LabelWitness| None,
        );
    }
}

proof fn lemma_page_passes(b: Seq<u8>, at: nat)
    ensures
        page(b, at) matches Ok((p, _)) ==> page_complaint(p) is None,
{
    lemma_list_is_small(
        b,
        at + 4 + PAGE_SIZE as nat,
        "proof siblings",
        32,
        |b: Seq<u8>, at: nat| digest(b, at, "proof sibling"),
        |h: Digest| None,
    );
}

proof fn lemma_front_passes(b: Seq<u8>, at: nat)
    requires
        front(b, at) is Ok,
    ensures
        ({
            let f = front(b, at)->Ok_0.0;
            &&& f.globals.len() <= u32::MAX
            &&& f.operand_stack.len() <= u32::MAX
            &&& f.frames.len() <= u32::MAX
            &&& first_among(f.frames, |f: FrameView| frame_complaint(f)) is None
        }),
{
    let one = |b: Seq<u8>, at: nat| frame(b, at);
    let test = |f: FrameView| frame_complaint(f);
    lemma_values_are_few(b, at + 32, "globals");
    let here = values(b, at + 32, "globals")->Ok_0.1;
    lemma_values_are_few(b, here, "operand stack");
    let here = values(b, here, "operand stack")->Ok_0.1;
    assert forall|p: nat| (#[trigger] one(b, p)) matches Ok((t, _)) ==> test(t) is None by {
        lemma_frame_passes(b, p);
    }
    lemma_list_is_small(b, here, "frames", 24, one, test);
}

proof fn lemma_back_passes(b: Seq<u8>, at: nat)
    requires
        back(b, at) is Ok,
    ensures
        ({
            let k = back(b, at)->Ok_0.0;
            &&& k.pages.len() <= u32::MAX
            &&& first_among(k.pages, |p: PageView| page_complaint(p)) is None
            &&& k.dropped_data.len() <= u32::MAX
            &&& k.dropped_elements.len() <= u32::MAX
        }),
{
    let one = |b: Seq<u8>, at: nat| page(b, at);
    let test = |p: PageView| page_complaint(p);
    assert forall|p: nat| (#[trigger] one(b, p)) matches Ok((t, _)) ==> test(t) is None by {
        lemma_page_passes(b, p);
    }
    let here = memory_fields(b, at)->Ok_0.1;
    lemma_list_is_small(b, here, "pages", 65_544, one, test);
    let here = list(b, here, "pages", 65_544, one)->Ok_0.1;
    lemma_count_is_small(b, here, "dropped data segments", 1);
    let here = flags(b, here, "dropped data segments")->Ok_0.1;
    lemma_count_is_small(b, here, "dropped element segments", 1);
}

/// Whatever was received can be sent on: a witness that was decoded can be encoded, and is
/// decoded the same again.
///
/// The bytes need not be the same. A flag is written as one and read from any other byte but
/// zero.
pub proof fn law_what_was_decoded_can_be_encoded(b: Seq<u8>)
    requires
        decoded(b) is Ok,
    ensures
        complaint(decoded(b)->Ok_0) is None,
        decoded(encoding(decoded(b)->Ok_0)) == decoded(b),
{
    let at = header(b)->Ok_0.1;
    lemma_front_passes(b, at);
    lemma_back_passes(b, front(b, at)->Ok_0.1);
    law_decoding_undoes_encoding(decoded(b)->Ok_0);
}

/// A witness is written behind four letters and the version of the format, beginning with the
/// digest of the answer. A value in it is nine bytes: which type it is of, and its bits as a number.
pub proof fn law_a_witness_is_written_behind_its_mark(w: WitnessView, v: Value)
    ensures
        encoding(w).len() >= 37,
        encoding(w).take(5) == seq![0x43u8, 0x57, 0x54, 0x4e, 0x02],
        encoding(w).subrange(5, 37) == w.output@,
        value_bytes(v) == v.encoding(),
{
    let b = encoding(w);
    assert(b.take(5) =~= seq![0x43u8, 0x57, 0x54, 0x4e, 0x02]);
    assert(b.subrange(5, 37) =~= w.output@);
}

proof fn lemma_nothing_among<T>(items: Seq<T>, complaint: spec_fn(T) -> Option<WireError>)
    ensures
        first_among(items, complaint) is None <==> forall|i: int|
            0 <= i < items.len() ==> complaint(#[trigger] items[i]) is None,
    decreases items.len(),
{
    if items.len() > 0 {
        let n = items.len() - 1;
        let before = items.drop_last();
        lemma_nothing_among(before, complaint);
        if first_among(items, complaint) is None {
            assert forall|i: int| 0 <= i < items.len() implies complaint(
                #[trigger] items[i],
            ) is None by {
                if i < n {
                    assert(items[i] == before[i]);
                }
            }
        } else if complaint(items[n]) is None {
            let i = choose|i: int| 0 <= i < before.len() && complaint(#[trigger] before[i]) is Some;
            assert(items[i] == before[i]);
        }
    }
}

/// A witness can be written exactly if every list in it is short enough to be counted in four
/// bytes, and every page is a whole one.
pub proof fn law_what_can_be_counted_can_be_written(w: WitnessView)
    ensures
        complaint(w) is None <==> {
            &&& w.globals.len() <= u32::MAX
            &&& w.operand_stack.len() <= u32::MAX
            &&& w.frames.len() <= u32::MAX
            &&& w.pages.len() <= u32::MAX
            &&& w.dropped_data.len() <= u32::MAX
            &&& w.dropped_elements.len() <= u32::MAX
            &&& forall|i: int|
                0 <= i < w.frames.len() ==> (#[trigger] w.frames[i]).locals.len() <= u32::MAX
                    && w.frames[i].labels.len() <= u32::MAX
            &&& forall|i: int|
                0 <= i < w.pages.len() ==> (#[trigger] w.pages[i]).bytes.len() == 65536
                    && w.pages[i].path.len() <= u32::MAX
        },
{
    let (f, p) = (|f: FrameView| frame_complaint(f), |p: PageView| page_complaint(p));
    lemma_nothing_among(w.frames, f);
    lemma_nothing_among(w.pages, p);
    assert forall|i: int| 0 <= i < w.frames.len() implies (f(#[trigger] w.frames[i]) is None
        <==> w.frames[i].locals.len() <= u32::MAX && w.frames[i].labels.len() <= u32::MAX) by {}
    assert forall|i: int| 0 <= i < w.pages.len() implies (p(#[trigger] w.pages[i]) is None
        <==> w.pages[i].bytes.len() == 65536 && w.pages[i].path.len() <= u32::MAX) by {}
}

/// Bytes that do not begin with the four letters, or that are of another version, are refused and
/// told apart.
pub proof fn law_only_marked_bytes_are_read(b: Seq<u8>)
    requires
        b.len() >= 5,
    ensures
        b.take(4) != seq![0x43u8, 0x57, 0x54, 0x4e] ==> decoded(b) == Err::<WitnessView, _>(
            WireError::NotAWitness,
        ),
        b.take(4) == seq![0x43u8, 0x57, 0x54, 0x4e] && b[4] != 2 ==> decoded(b) == Err::<
            WitnessView,
            _,
        >(WireError::UnsupportedVersion { found: b[4] }),
{
    assert(b.subrange(0, 4) =~= b.take(4));
    assert(MAGIC@ =~= seq![0x43u8, 0x57, 0x54, 0x4e]);
    lemma_one_byte(b, 4);
}

proof fn lemma_one_byte(b: Seq<u8>, at: int)
    requires
        0 <= at < b.len(),
    ensures
        le_value(b.subrange(at, at + 1)) == b[at],
{
    let one = b.subrange(at, at + 1);
    assert(one.drop_first() =~= Seq::empty());
    assert(le_value(one.drop_first()) == 0);
}

/// A value is read from nine bytes, whatever they are, if the first is one of four; any other is
/// refused and told.
pub proof fn law_a_value_is_read_if_its_type_is_known(b: Seq<u8>, at: nat)
    ensures
        at + 9 > b.len() ==> value(b, at) is Err,
        at + 9 <= b.len() && b[at as int] > 3 ==> value(b, at) == Err::<(Value, nat), _>(
            WireError::UnknownValueTag { tag: b[at as int] },
        ),
        at + 9 <= b.len() && b[at as int] <= 3 ==> (value(b, at) matches Ok((v, next)) && next == at
            + 9 && v.tag_of() == b[at as int]),
{
    if at < b.len() {
        lemma_one_byte(b, at as int);
    }
}

/// A count is refused exactly if it cannot be read, or if so many of what it counts would not fit
/// into what is left.
pub proof fn law_a_count_must_be_plausible(b: Seq<u8>, at: nat, reading: &'static str, least: nat)
    ensures
        counted(b, at, reading, least) is Ok <==> at + 4 <= b.len() && le_value(
            b.subrange(at as int, (at + 4) as int),
        ) * least <= b.len() - at - 4,
        counted(b, at, reading, least) matches Ok((n, next)) ==> next == at + 4 && n == le_value(
            b.subrange(at as int, (at + 4) as int),
        ),
{
}

} // verus!
