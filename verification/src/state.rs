//! The canonical representation of a machine state, and its commitment.
//!
//! This is the vocabulary the dispute protocol speaks. A snapshot is a
//! [`StateCommitment::root`]; bisection compares two of them; arbitration re-executes one
//! instruction and checks that the resulting root matches what a worker claimed.
//!
//! # Floating point is stored as bits, never as floats
//!
//! [`Value::F32`] and [`Value::F64`] hold raw bit patterns. NaN is not equal to itself, so a
//! state compared as floats would never equal a copy of itself; and `+0.0` and `-0.0` compare
//! equal but are different states. Comparing bits gets both cases right.
//!
//! # What a commitment covers
//!
//! ```text
//! root = H( domain | memory | globals | operand_stack | call_stack
//!           | segments | output | pc | fuel )
//! ```
//!
//! `output` is the answer, and it is here because a commitment that did not cover it would let
//! two executions agree at every step while having returned different results.
use crate::bytes::{
    concat_all, le_bytes, le_value, lemma_concat_all_injective, lemma_concat_all_push,
    lemma_le_bytes_injective, lemma_le_bytes_len, lemma_le_value_of_bytes, lemma_pow256_values,
    lemma_split_equal, put_bytes, put_le,
};
use crate::fuel::Fuel;
use crate::hash::{Digest, blake3_digest, blake3_hash, is_collision};
use crate::text;
use vstd::prelude::*;

verus! {

/// Domain separator for a whole-state commitment.
///
/// `0x00` and `0x01` belong to [`crate::merkle`]'s leaf and node hashes; every domain byte in
/// this crate is distinct so that no hash of one kind can be presented as a hash of another.
pub const DOMAIN_STATE: u8 = 0x02;

/// Domain separator for a hashed sequence of values.
pub const DOMAIN_VALUES: u8 = 0x03;

/// Domain separator for the linear-memory commitment.
pub const DOMAIN_MEMORY: u8 = 0x04;

/// Domain separator for one call frame.
pub const DOMAIN_FRAME: u8 = 0x05;

/// Domain separator for a frame's label stack.
pub const DOMAIN_LABELS: u8 = 0x06;

/// Domain separator for the call stack as a whole.
pub const DOMAIN_CALL_STACK: u8 = 0x07;

/// Domain separator for the dropped-segment bitmaps.
pub const DOMAIN_SEGMENTS: u8 = 0x08;

/// Domain separator for the output buffer.
pub const DOMAIN_OUTPUT: u8 = 0x09;

/// A WebAssembly numeric value, as it appears on the operand stack, in a local, or in a global.
///
/// Reference types are absent by construction: [`crate::validate`] rejects any module that could
/// produce one.
#[derive(Debug, Clone, Copy, PartialEq, Eq, Hash, Structural)]
pub enum Value {
    /// A 32-bit integer.
    I32(i32),
    /// A 64-bit integer.
    I64(i64),
    /// A 32-bit float, held as its raw bit pattern. See the module documentation.
    F32(u32),
    /// A 64-bit float, held as its raw bit pattern. See the module documentation.
    F64(u64),
}

impl Value {
    /// Tag byte identifying the value's type in the canonical encoding.
    pub open spec fn tag_of(self) -> u8 {
        match self {
            Value::I32(_) => 0x00,
            Value::I64(_) => 0x01,
            Value::F32(_) => 0x02,
            Value::F64(_) => 0x03,
        }
    }

    /// The payload, widened to 64 bits without interpretation.
    pub open spec fn payload_of(self) -> u64 {
        match self {
            Value::I32(v) => v as u32 as u64,
            Value::I64(v) => v as u64,
            Value::F32(bits) => bits as u64,
            Value::F64(bits) => bits,
        }
    }

    /// The canonical nine-byte encoding: one tag byte then the payload, little-endian.
    pub open spec fn encoding(self) -> Seq<u8> {
        seq![self.tag_of()] + le_bytes(self.payload_of() as nat, 8)
    }

    /// The tag byte.
    pub(crate) fn tag(self) -> (r: u8)
        ensures
            r == self.tag_of(),
    {
        match self {
            Value::I32(_) => 0x00,
            Value::I64(_) => 0x01,
            Value::F32(_) => 0x02,
            Value::F64(_) => 0x03,
        }
    }

    /// The payload, widened to 64 bits without interpretation.
    pub(crate) fn payload(self) -> (r: u64)
        ensures
            r == self.payload_of(),
    {
        match self {
            Value::I32(v) => v as u32 as u64,
            Value::I64(v) => v as u64,
            Value::F32(bits) => bits as u64,
            Value::F64(bits) => bits,
        }
    }

    /// The canonical nine-byte encoding: one tag byte then the payload, little-endian.
    ///
    /// Fixed width keeps a sequence of values unambiguous without per-element framing.
    #[must_use]
    pub fn encode(self) -> (r: [u8; 9])
        ensures
            r@ == self.encoding(),
    {
        let mut payload: Vec<u8> = Vec::new();
        put_le(&mut payload, self.payload(), 8);
        proof {
            lemma_le_bytes_len(self.payload_of() as nat, 8);
        }
        assert(payload@ =~= le_bytes(self.payload_of() as nat, 8));
        let r = [
            self.tag(),
            payload[0],
            payload[1],
            payload[2],
            payload[3],
            payload[4],
            payload[5],
            payload[6],
            payload[7],
        ];
        assert(r@ =~= self.encoding());
        r
    }
}

/// How a value is encoded, as a function.
pub open spec fn value_encoder() -> spec_fn(Value) -> Seq<u8> {
    |v: Value| v.encoding()
}

/// The encodings of values, one after another.
pub open spec fn values_encoding(values: Seq<Value>) -> Seq<u8> {
    concat_all(values, value_encoder())
}

/// What is hashed for a sequence of values: its length, then every value.
pub open spec fn values_preimage(values: Seq<Value>) -> Seq<u8> {
    seq![DOMAIN_VALUES] + le_bytes(values.len(), 8) + values_encoding(values)
}

/// The commitment to a sequence of values.
pub open spec fn values_hash(values: Seq<Value>) -> Digest {
    blake3_digest(values_preimage(values))
}

/// Commit to a sequence of values: an operand stack, a frame's locals, or the globals.
///
/// The length is hashed explicitly, so that values cannot be shuffled between two adjacent
/// sequences without changing the commitment.
#[must_use]
pub fn hash_values(values: &[Value]) -> (r: Digest)
    ensures
        r == values_hash(values@),
{
    let mut data: Vec<u8> = Vec::new();
    data.push(DOMAIN_VALUES);
    put_le(&mut data, values.len() as u64, 8);
    let ghost head = seq![DOMAIN_VALUES] + le_bytes(values@.len(), 8);
    assert(data@ =~= head + values_encoding(values@.take(0)));
    let mut i: usize = 0;
    while i < values.len()
        invariant
            i <= values@.len(),
            data@ == head + values_encoding(values@.take(i as int)),
        decreases values@.len() - i,
    {
        let encoded = values[i].encode();
        put_bytes(&mut data, encoded.as_slice());
        proof {
            lemma_concat_all_push(values@, i as int, value_encoder());
            assert(data@ =~= head + values_encoding(values@.take(i + 1)));
        }
        i = i + 1;
    }
    assert(values@.take(i as int) =~= values@);
    blake3_hash(data.as_slice())
}

/// What is hashed for linear memory: its current size, then its page-tree root.
pub open spec fn memory_preimage(pages: u32, page_tree_root: Digest) -> Seq<u8> {
    seq![DOMAIN_MEMORY] + le_bytes(pages as nat, 4) + page_tree_root@
}

/// The commitment to linear memory.
pub open spec fn memory_hash(pages: u32, page_tree_root: Digest) -> Digest {
    blake3_digest(memory_preimage(pages, page_tree_root))
}

/// Commit to linear memory: its contents *and* its current size.
///
/// The page tree is sized once to the declared maximum and pages past the current end read as
/// zero, so a worker that had grown its memory and one that had not would have equal page trees
/// whenever the extra pages were still blank. The page count is bound here instead.
#[must_use]
pub fn hash_memory(pages: u32, page_tree_root: &Digest) -> (r: Digest)
    ensures
        r == memory_hash(pages, *page_tree_root),
{
    let mut data: Vec<u8> = Vec::new();
    data.push(DOMAIN_MEMORY);
    put_le(&mut data, pages as u64, 4);
    put_bytes(&mut data, page_tree_root.as_slice());
    assert(data@ =~= memory_preimage(pages, *page_tree_root));
    blake3_hash(data.as_slice())
}

/// A boolean as a byte.
pub open spec fn flag_byte(b: bool) -> u8 {
    if b {
        1
    } else {
        0
    }
}

/// A boolean as a byte.
pub fn byte_of(b: bool) -> (r: u8)
    ensures
        r == flag_byte(b),
{
    if b {
        1
    } else {
        0
    }
}

/// One entry of a frame's label stack, reduced to what a branch depends on.
#[derive(Debug, Clone, Copy, PartialEq, Eq, Structural)]
pub struct LabelDigest {
    /// Instruction index a branch to this label jumps to.
    pub branch_target: u32,
    /// Number of values a branch to this label preserves.
    pub arity: u32,
    /// Operand-stack height a branch truncates to.
    pub stack_height: u32,
    /// Whether this label belongs to a `loop`, which a branch re-enters rather than exits.
    pub is_loop: bool,
}

impl LabelDigest {
    /// The thirteen bytes a label contributes.
    pub open spec fn encoding(self) -> Seq<u8> {
        le_bytes(self.branch_target as nat, 4) + le_bytes(self.arity as nat, 4) + le_bytes(
            self.stack_height as nat,
            4,
        ) + seq![flag_byte(self.is_loop)]
    }
}

/// How a label is encoded, as a function.
pub open spec fn label_encoder() -> spec_fn(LabelDigest) -> Seq<u8> {
    |l: LabelDigest| l.encoding()
}

/// What is hashed for a label stack.
pub open spec fn labels_preimage(labels: Seq<LabelDigest>) -> Seq<u8> {
    seq![DOMAIN_LABELS] + le_bytes(labels.len(), 8) + concat_all(labels, label_encoder())
}

/// The commitment to a label stack.
pub open spec fn labels_hash(labels: Seq<LabelDigest>) -> Digest {
    blake3_digest(labels_preimage(labels))
}

/// Commit to a frame's label stack, innermost last.
#[must_use]
pub fn hash_labels(labels: &[LabelDigest]) -> (r: Digest)
    ensures
        r == labels_hash(labels@),
{
    let mut data: Vec<u8> = Vec::new();
    data.push(DOMAIN_LABELS);
    put_le(&mut data, labels.len() as u64, 8);
    let ghost head = seq![DOMAIN_LABELS] + le_bytes(labels@.len(), 8);
    assert(data@ =~= head + concat_all(labels@.take(0), label_encoder()));
    let mut i: usize = 0;
    while i < labels.len()
        invariant
            i <= labels@.len(),
            data@ == head + concat_all(labels@.take(i as int), label_encoder()),
        decreases labels@.len() - i,
    {
        let label: LabelDigest = labels[i];
        put_le(&mut data, label.branch_target as u64, 4);
        put_le(&mut data, label.arity as u64, 4);
        put_le(&mut data, label.stack_height as u64, 4);
        data.push(byte_of(label.is_loop));
        proof {
            lemma_concat_all_push(labels@, i as int, label_encoder());
            assert(data@ =~= head + concat_all(labels@.take(i + 1), label_encoder()));
        }
        i = i + 1;
    }
    assert(labels@.take(i as int) =~= labels@);
    blake3_hash(data.as_slice())
}

/// One call frame, reduced to hashes.
#[derive(Debug, Clone, Copy, PartialEq, Eq)]
pub struct FrameDigest {
    /// Index of the function this frame is executing.
    pub function: u32,
    /// Instruction index to resume at within that function.
    pub instruction: u32,
    /// Operand-stack height this frame was entered at.
    pub stack_base: u32,
    /// Number of values the frame returns.
    pub arity: u32,
    /// [`hash_values`] over the frame's locals, parameters first.
    pub locals: Digest,
    /// [`hash_labels`] over the frame's label stack.
    pub labels: Digest,
}

impl FrameDigest {
    /// The eighty-one bytes a frame contributes.
    pub open spec fn encoding(self) -> Seq<u8> {
        seq![DOMAIN_FRAME] + le_bytes(self.function as nat, 4) + le_bytes(
            self.instruction as nat,
            4,
        ) + le_bytes(self.stack_base as nat, 4) + le_bytes(self.arity as nat, 4) + self.locals@
            + self.labels@
    }
}

/// How a frame is encoded, as a function.
pub open spec fn frame_encoder() -> spec_fn(FrameDigest) -> Seq<u8> {
    |f: FrameDigest| f.encoding()
}

/// What is hashed for a call stack.
pub open spec fn frames_preimage(frames: Seq<FrameDigest>) -> Seq<u8> {
    seq![DOMAIN_CALL_STACK] + le_bytes(frames.len(), 8) + concat_all(frames, frame_encoder())
}

/// The commitment to a call stack.
pub open spec fn frames_hash(frames: Seq<FrameDigest>) -> Digest {
    blake3_digest(frames_preimage(frames))
}

/// Commit to the call stack, outermost first.
#[must_use]
pub fn hash_frames(frames: &[FrameDigest]) -> (r: Digest)
    ensures
        r == frames_hash(frames@),
{
    let mut data: Vec<u8> = Vec::new();
    data.push(DOMAIN_CALL_STACK);
    put_le(&mut data, frames.len() as u64, 8);
    let ghost head = seq![DOMAIN_CALL_STACK] + le_bytes(frames@.len(), 8);
    assert(data@ =~= head + concat_all(frames@.take(0), frame_encoder()));
    let mut i: usize = 0;
    while i < frames.len()
        invariant
            i <= frames@.len(),
            data@ == head + concat_all(frames@.take(i as int), frame_encoder()),
        decreases frames@.len() - i,
    {
        let frame: FrameDigest = frames[i];
        data.push(DOMAIN_FRAME);
        put_le(&mut data, frame.function as u64, 4);
        put_le(&mut data, frame.instruction as u64, 4);
        put_le(&mut data, frame.stack_base as u64, 4);
        put_le(&mut data, frame.arity as u64, 4);
        put_bytes(&mut data, frame.locals.as_slice());
        put_bytes(&mut data, frame.labels.as_slice());
        proof {
            lemma_concat_all_push(frames@, i as int, frame_encoder());
            assert(data@ =~= head + concat_all(frames@.take(i + 1), frame_encoder()));
        }
        i = i + 1;
    }
    assert(frames@.take(i as int) =~= frames@);
    blake3_hash(data.as_slice())
}

/// Booleans as bytes.
pub open spec fn flag_bytes(flags: Seq<bool>) -> Seq<u8> {
    flags.map_values(|b: bool| flag_byte(b))
}

/// Append booleans as bytes.
pub fn put_flags(out: &mut Vec<u8>, flags: &[bool])
    ensures
        final(out)@ == old(out)@ + flag_bytes(flags@),
{
    let ghost before = out@;
    let mut i: usize = 0;
    assert(out@ =~= before + flag_bytes(flags@.take(0)));
    while i < flags.len()
        invariant
            i <= flags@.len(),
            out@ == before + flag_bytes(flags@.take(i as int)),
        decreases flags@.len() - i,
    {
        out.push(byte_of(flags[i]));
        assert(out@ =~= before + flag_bytes(flags@.take(i + 1)));
        i = i + 1;
    }
    assert(flags@.take(i as int) =~= flags@);
}

/// What is hashed for the dropped segments.
pub open spec fn segments_preimage(dropped_data: Seq<bool>, dropped_elements: Seq<bool>) -> Seq<
    u8,
> {
    seq![DOMAIN_SEGMENTS] + le_bytes(dropped_data.len(), 8) + flag_bytes(dropped_data) + le_bytes(
        dropped_elements.len(),
        8,
    ) + flag_bytes(dropped_elements)
}

/// The commitment to the dropped segments.
pub open spec fn segments_hash(dropped_data: Seq<bool>, dropped_elements: Seq<bool>) -> Digest {
    blake3_digest(segments_preimage(dropped_data, dropped_elements))
}

/// Commit to which data and element segments have been dropped.
///
/// `data.drop` and `elem.drop` change what a later `memory.init` or `table.init` copies, so two
/// executions differing only in which segments they have dropped are different states.
#[must_use]
pub fn hash_segments(dropped_data: &[bool], dropped_elements: &[bool]) -> (r: Digest)
    ensures
        r == segments_hash(dropped_data@, dropped_elements@),
{
    let mut data: Vec<u8> = Vec::new();
    data.push(DOMAIN_SEGMENTS);
    put_le(&mut data, dropped_data.len() as u64, 8);
    put_flags(&mut data, dropped_data);
    put_le(&mut data, dropped_elements.len() as u64, 8);
    put_flags(&mut data, dropped_elements);
    assert(data@ =~= segments_preimage(dropped_data@, dropped_elements@));
    blake3_hash(data.as_slice())
}

/// What is hashed for an answer.
pub open spec fn output_preimage(output: Seq<u8>) -> Seq<u8> {
    seq![DOMAIN_OUTPUT] + le_bytes(output.len(), 8) + output
}

/// The commitment to an answer.
pub open spec fn output_hash(output: Seq<u8>) -> Digest {
    blake3_digest(output_preimage(output))
}

/// Commit to what the workload has answered so far.
///
/// Length-prefixed, so that an empty output and a zero-length write are the same state while no
/// two different byte strings can collide by concatenation.
#[must_use]
pub fn hash_output(output: &[u8]) -> (r: Digest)
    ensures
        r == output_hash(output@),
{
    let mut data: Vec<u8> = Vec::new();
    data.push(DOMAIN_OUTPUT);
    put_le(&mut data, output.len() as u64, 8);
    put_bytes(&mut data, output);
    assert(data@ =~= output_preimage(output@));
    blake3_hash(data.as_slice())
}

/// Where execution has reached: an instruction within a function.
///
/// Both indices refer to the *instrumented* module. Instruction indices are positions in the
/// function's operator sequence, so they are stable across machines in a way byte offsets would
/// not be.
#[derive(Debug, Clone, Copy, PartialEq, Eq, PartialOrd, Ord, Hash, Default, Structural)]
pub struct ProgramCounter {
    /// Index of the executing function in the instrumented module.
    pub function: u32,
    /// Index of the next instruction to execute within that function.
    pub instruction: u32,
}

impl ProgramCounter {
    /// The canonical eight-byte encoding.
    pub open spec fn encoding(self) -> Seq<u8> {
        le_bytes(self.function as nat, 4) + le_bytes(self.instruction as nat, 4)
    }

    /// The canonical eight-byte encoding.
    #[must_use]
    pub fn encode(self) -> (r: [u8; 8])
        ensures
            r@ == self.encoding(),
    {
        let mut b: Vec<u8> = Vec::new();
        put_le(&mut b, self.function as u64, 4);
        put_le(&mut b, self.instruction as u64, 4);
        proof {
            lemma_le_bytes_len(self.function as nat, 4);
            lemma_le_bytes_len(self.instruction as nat, 4);
        }
        assert(b@ =~= self.encoding());
        let r = [b[0], b[1], b[2], b[3], b[4], b[5], b[6], b[7]];
        assert(r@ =~= self.encoding());
        r
    }

    /// Render the position.
    #[must_use]
    pub fn to_string(&self) -> (r: String)
        ensures
            r@ == "func "@ + text::decimal_text(self.function as nat) + ":"@ + text::decimal_text(
                self.instruction as nat,
            ),
    {
        let f = text::decimal(self.function as u64);
        let i = text::decimal(self.instruction as u64);
        let mut r = text::join3("func ", f.as_str(), ":");
        r.append(i.as_str());
        r
    }
}

/// The parts of a machine state, each already reduced to a hash.
///
/// An engine assembles this from its own structures; nothing here assumes how an interpreter
/// stores its stack or its frames, only how it must summarise them.
#[derive(Debug, Clone, Copy, PartialEq, Eq)]
pub struct StateCommitment {
    /// [`hash_memory`] over linear memory.
    pub memory: Digest,
    /// [`hash_values`] over the module's globals, in index order.
    pub globals: Digest,
    /// [`hash_values`] over the operand stack, bottom to top.
    pub operand_stack: Digest,
    /// [`hash_frames`] over the call stack.
    pub call_stack: Digest,
    /// [`hash_segments`] over the dropped data and element segments.
    pub segments: Digest,
    /// [`hash_output`] over the bytes written through `cairn.output` so far.
    ///
    /// With it, a state root *determines* the answer: agreeing traces agree on the output, and a
    /// single party's witness at the final step proves what the answer was, against a root both
    /// parties already committed to. A digest rather than the bytes, because `cairn.output` replaces rather than appends, so a
    /// witness never has to carry them.
    pub output: Digest,
    /// The instruction about to execute.
    pub program_counter: ProgramCounter,
    /// Instructions retired so far.
    pub fuel: Fuel,
}

impl StateCommitment {
    /// What is hashed for a state.
    pub open spec fn preimage(self) -> Seq<u8> {
        seq![DOMAIN_STATE] + self.memory@ + self.globals@ + self.operand_stack@ + self.call_stack@
            + self.segments@ + self.output@ + self.program_counter.encoding() + le_bytes(
            self.fuel.0 as nat,
            8,
        )
    }

    /// The single hash that identifies this state.
    pub open spec fn root_hash(self) -> Digest {
        blake3_digest(self.preimage())
    }

    /// The single hash that identifies this state.
    ///
    /// Every component is fixed-width, so the concatenation is unambiguous without length
    /// prefixes at this level.
    #[must_use]
    pub fn root(&self) -> (r: Digest)
        ensures
            r == self.root_hash(),
    {
        let mut data: Vec<u8> = Vec::new();
        data.push(DOMAIN_STATE);
        put_bytes(&mut data, self.memory.as_slice());
        put_bytes(&mut data, self.globals.as_slice());
        put_bytes(&mut data, self.operand_stack.as_slice());
        put_bytes(&mut data, self.call_stack.as_slice());
        put_bytes(&mut data, self.segments.as_slice());
        put_bytes(&mut data, self.output.as_slice());
        let pc = self.program_counter.encode();
        put_bytes(&mut data, pc.as_slice());
        put_le(&mut data, self.fuel.get(), 8);
        assert(data@ =~= self.preimage());
        blake3_hash(data.as_slice())
    }
}

/// A byte of domain, an eight-byte count and a body are told apart.
proof fn lemma_counted(domain: u8, m: nat, x: Seq<u8>, n: nat, y: Seq<u8>)
    requires
        m <= u64::MAX,
        n <= u64::MAX,
        seq![domain] + le_bytes(m, 8) + x == seq![domain] + le_bytes(n, 8) + y,
    ensures
        m == n,
        x == y,
{
    lemma_le_bytes_len(m, 8);
    lemma_le_bytes_len(n, 8);
    lemma_pow256_values();
    lemma_split_equal(seq![domain] + le_bytes(m, 8), x, seq![domain] + le_bytes(n, 8), y);
    lemma_split_equal(seq![domain], le_bytes(m, 8), seq![domain], le_bytes(n, 8));
    lemma_le_bytes_injective(m, n, 8);
}

/// Little-endian numbers of a given width in front of a body are told apart.
proof fn lemma_numbered(a: nat, x: Seq<u8>, b: nat, y: Seq<u8>, width: nat)
    requires
        width == 4 || width == 8,
        width == 4 ==> a <= u32::MAX && b <= u32::MAX,
        width == 8 ==> a <= u64::MAX && b <= u64::MAX,
        le_bytes(a, width) + x == le_bytes(b, width) + y,
    ensures
        a == b,
        x == y,
{
    lemma_le_bytes_len(a, width);
    lemma_le_bytes_len(b, width);
    lemma_pow256_values();
    lemma_split_equal(le_bytes(a, width), x, le_bytes(b, width), y);
    lemma_le_bytes_injective(a, b, width);
}

/// A value is told apart from every other by its nine bytes: in particular a NaN equals only
/// itself bit for bit, and the two zeros differ.
pub proof fn law_value_encoding_is_injective(a: Value, b: Value)
    requires
        a.encoding() == b.encoding(),
    ensures
        a == b,
{
    lemma_le_bytes_len(a.payload_of() as nat, 8);
    lemma_le_bytes_len(b.payload_of() as nat, 8);
    lemma_pow256_values();
    lemma_split_equal(
        seq![a.tag_of()],
        le_bytes(a.payload_of() as nat, 8),
        seq![b.tag_of()],
        le_bytes(b.payload_of() as nat, 8),
    );
    lemma_le_bytes_injective(a.payload_of() as nat, b.payload_of() as nat, 8);
    assert(seq![a.tag_of()][0] == seq![b.tag_of()][0]);
    match (a, b) {
        (Value::I32(x), Value::I32(y)) => {
            assert(x as u32 as u64 == y as u32 as u64 ==> x == y) by (bit_vector);
        },
        (Value::I64(x), Value::I64(y)) => {
            assert(x as u64 == y as u64 ==> x == y) by (bit_vector);
        },
        _ => {},
    }
}

/// Two sequences of values with one commitment are the same sequence, or what was hashed for them collides.
pub proof fn law_values_hash_binds(a: Seq<Value>, b: Seq<Value>)
    requires
        a.len() <= u64::MAX,
        b.len() <= u64::MAX,
        values_hash(a) == values_hash(b),
    ensures
        a == b || is_collision(values_preimage(a), values_preimage(b)),
{
    if values_preimage(a) == values_preimage(b) {
        let e = value_encoder();
        lemma_counted(DOMAIN_VALUES, a.len(), values_encoding(a), b.len(), values_encoding(b));
        assert forall|v: Value| #[trigger] e(v).len() == 9 by {
            lemma_le_bytes_len(v.payload_of() as nat, 8);
        }
        assert forall|v: Value, w: Value| #[trigger] e(v) == #[trigger] e(w) implies v == w by {
            law_value_encoding_is_injective(v, w);
        }
        lemma_concat_all_injective(a, b, e, 9);
    }
}

/// Two memories with one commitment have one size and one page-tree root, or what was hashed collides.
pub proof fn law_memory_hash_binds(pages_a: u32, root_a: Digest, pages_b: u32, root_b: Digest)
    requires
        memory_hash(pages_a, root_a) == memory_hash(pages_b, root_b),
    ensures
        (pages_a == pages_b && root_a == root_b) || is_collision(memory_preimage(pages_a, root_a), memory_preimage(pages_b, root_b)),
{
    if memory_preimage(pages_a, root_a) == memory_preimage(pages_b, root_b) {
        let d = seq![DOMAIN_MEMORY];
        let (pa, pb) = (le_bytes(pages_a as nat, 4), le_bytes(pages_b as nat, 4));
        assert(d + pa + root_a@ =~= d + (pa + root_a@));
        assert(d + pb + root_b@ =~= d + (pb + root_b@));
        lemma_split_equal(d, pa + root_a@, d, pb + root_b@);
        lemma_numbered(pages_a as nat, root_a@, pages_b as nat, root_b@, 4);
        assert(root_a =~= root_b);
    }
}

proof fn lemma_label_encoding(a: LabelDigest)
    ensures
        a.encoding().len() == 13,
        a.encoding() == le_bytes(a.branch_target as nat, 4) + (le_bytes(a.arity as nat, 4) + (
        le_bytes(a.stack_height as nat, 4) + seq![flag_byte(a.is_loop)])),
{
    lemma_le_bytes_len(a.branch_target as nat, 4);
    lemma_le_bytes_len(a.arity as nat, 4);
    lemma_le_bytes_len(a.stack_height as nat, 4);
    assert(a.encoding() =~= le_bytes(a.branch_target as nat, 4) + (le_bytes(a.arity as nat, 4) + (
    le_bytes(a.stack_height as nat, 4) + seq![flag_byte(a.is_loop)])));
}

proof fn lemma_label_injective(a: LabelDigest, b: LabelDigest)
    requires
        a.encoding() == b.encoding(),
    ensures
        a == b,
{
    lemma_label_encoding(a);
    lemma_label_encoding(b);
    let (ha, hb) = (le_bytes(a.stack_height as nat, 4), le_bytes(b.stack_height as nat, 4));
    let (fa, fb) = (seq![flag_byte(a.is_loop)], seq![flag_byte(b.is_loop)]);
    let (xa, xb) = (le_bytes(a.arity as nat, 4) + (ha + fa), le_bytes(b.arity as nat, 4) + (hb + fb));
    lemma_numbered(a.branch_target as nat, xa, b.branch_target as nat, xb, 4);
    lemma_numbered(a.arity as nat, ha + fa, b.arity as nat, hb + fb, 4);
    lemma_numbered(a.stack_height as nat, fa, b.stack_height as nat, fb, 4);
    assert(fa[0] == fb[0]);
}

/// Two label stacks with one commitment are the same stack, or what was hashed for them collides.
pub proof fn law_labels_hash_binds(a: Seq<LabelDigest>, b: Seq<LabelDigest>)
    requires
        a.len() <= u64::MAX,
        b.len() <= u64::MAX,
        labels_hash(a) == labels_hash(b),
    ensures
        a == b || is_collision(labels_preimage(a), labels_preimage(b)),
{
    if labels_preimage(a) == labels_preimage(b) {
        let e = label_encoder();
        lemma_counted(DOMAIN_LABELS, a.len(), concat_all(a, e), b.len(), concat_all(b, e));
        assert forall|v: LabelDigest| #[trigger] e(v).len() == 13 by {
            lemma_label_encoding(v);
        }
        assert forall|v: LabelDigest, w: LabelDigest| #[trigger] e(v) == #[trigger] e(
            w,
        ) implies v == w by {
            lemma_label_injective(v, w);
        }
        lemma_concat_all_injective(a, b, e, 13);
    }
}

/// The fields of a frame after its domain byte, grouped from the right.
spec fn frame_fields(a: FrameDigest) -> Seq<u8> {
    le_bytes(a.function as nat, 4) + (le_bytes(a.instruction as nat, 4) + (le_bytes(
        a.stack_base as nat,
        4,
    ) + (le_bytes(a.arity as nat, 4) + (a.locals@ + a.labels@))))
}

proof fn lemma_frame_encoding(a: FrameDigest)
    ensures
        a.encoding().len() == 81,
        a.encoding() == seq![DOMAIN_FRAME] + frame_fields(a),
{
    lemma_le_bytes_len(a.function as nat, 4);
    lemma_le_bytes_len(a.instruction as nat, 4);
    lemma_le_bytes_len(a.stack_base as nat, 4);
    lemma_le_bytes_len(a.arity as nat, 4);
    assert(a.encoding() =~= seq![DOMAIN_FRAME] + frame_fields(a));
}

proof fn lemma_frame_injective(a: FrameDigest, b: FrameDigest)
    requires
        a.encoding() == b.encoding(),
    ensures
        a == b,
{
    lemma_frame_encoding(a);
    lemma_frame_encoding(b);
    let d = seq![DOMAIN_FRAME];
    lemma_split_equal(d, frame_fields(a), d, frame_fields(b));
    let (ha, hb) = (a.locals@ + a.labels@, b.locals@ + b.labels@);
    let (ra, rb) = (le_bytes(a.arity as nat, 4) + ha, le_bytes(b.arity as nat, 4) + hb);
    let (sa, sb) = (
        le_bytes(a.stack_base as nat, 4) + ra,
        le_bytes(b.stack_base as nat, 4) + rb,
    );
    let (ia, ib) = (
        le_bytes(a.instruction as nat, 4) + sa,
        le_bytes(b.instruction as nat, 4) + sb,
    );
    lemma_numbered(a.function as nat, ia, b.function as nat, ib, 4);
    lemma_numbered(a.instruction as nat, sa, b.instruction as nat, sb, 4);
    lemma_numbered(a.stack_base as nat, ra, b.stack_base as nat, rb, 4);
    lemma_numbered(a.arity as nat, ha, b.arity as nat, hb, 4);
    lemma_split_equal(a.locals@, a.labels@, b.locals@, b.labels@);
    assert(a.locals =~= b.locals);
    assert(a.labels =~= b.labels);
}

/// Two call stacks with one commitment are the same stack, or what was hashed for them collides.
pub proof fn law_frames_hash_binds(a: Seq<FrameDigest>, b: Seq<FrameDigest>)
    requires
        a.len() <= u64::MAX,
        b.len() <= u64::MAX,
        frames_hash(a) == frames_hash(b),
    ensures
        a == b || is_collision(frames_preimage(a), frames_preimage(b)),
{
    if frames_preimage(a) == frames_preimage(b) {
        let e = frame_encoder();
        lemma_counted(DOMAIN_CALL_STACK, a.len(), concat_all(a, e), b.len(), concat_all(b, e));
        assert forall|v: FrameDigest| #[trigger] e(v).len() == 81 by {
            lemma_frame_encoding(v);
        }
        assert forall|v: FrameDigest, w: FrameDigest| #[trigger] e(v) == #[trigger] e(
            w,
        ) implies v == w by {
            lemma_frame_injective(v, w);
        }
        lemma_concat_all_injective(a, b, e, 81);
    }
}

proof fn lemma_flag_bytes_injective(a: Seq<bool>, b: Seq<bool>)
    requires
        flag_bytes(a) == flag_bytes(b),
    ensures
        a == b,
{
    assert(flag_bytes(a).len() == a.len());
    assert(flag_bytes(b).len() == b.len());
    assert forall|i: int| 0 <= i < a.len() implies a[i] == b[i] by {
        assert(flag_bytes(a)[i] == flag_byte(a[i]));
        assert(flag_bytes(b)[i] == flag_byte(b[i]));
    }
    assert(a =~= b);
}

/// Two pairs of segment bitmaps with one commitment are the same, or what was hashed for them collides.
pub proof fn law_segments_hash_binds(
    data_a: Seq<bool>,
    elements_a: Seq<bool>,
    data_b: Seq<bool>,
    elements_b: Seq<bool>,
)
    requires
        data_a.len() <= u64::MAX,
        elements_a.len() <= u64::MAX,
        data_b.len() <= u64::MAX,
        elements_b.len() <= u64::MAX,
        segments_hash(data_a, elements_a) == segments_hash(data_b, elements_b),
    ensures
        (data_a == data_b && elements_a == elements_b) || is_collision(segments_preimage(data_a, elements_a), segments_preimage(data_b, elements_b)),
{
    if segments_preimage(data_a, elements_a) == segments_preimage(data_b, elements_b) {
        let (la, lb) = (le_bytes(elements_a.len(), 8), le_bytes(elements_b.len(), 8));
        let (xa, xb) = (flag_bytes(elements_a), flag_bytes(elements_b));
        let (da, db) = (flag_bytes(data_a), flag_bytes(data_b));
        let head_a = seq![DOMAIN_SEGMENTS] + le_bytes(data_a.len(), 8);
        let head_b = seq![DOMAIN_SEGMENTS] + le_bytes(data_b.len(), 8);
        assert(segments_preimage(data_a, elements_a) =~= head_a + (da + (la + xa)));
        assert(segments_preimage(data_b, elements_b) =~= head_b + (db + (lb + xb)));
        lemma_counted(
            DOMAIN_SEGMENTS,
            data_a.len(),
            da + (la + xa),
            data_b.len(),
            db + (lb + xb),
        );
        assert(da.len() == data_a.len());
        assert(db.len() == data_b.len());
        lemma_split_equal(da, la + xa, db, lb + xb);
        lemma_numbered(elements_a.len(), xa, elements_b.len(), xb, 8);
        lemma_flag_bytes_injective(data_a, data_b);
        lemma_flag_bytes_injective(elements_a, elements_b);
    }
}

/// Two answers with one commitment are the same bytes, or what was hashed for them collides.
pub proof fn law_output_hash_binds(a: Seq<u8>, b: Seq<u8>)
    requires
        a.len() <= u64::MAX,
        b.len() <= u64::MAX,
        output_hash(a) == output_hash(b),
    ensures
        a == b || is_collision(output_preimage(a), output_preimage(b)),
{
    if output_preimage(a) == output_preimage(b) {
        lemma_counted(DOMAIN_OUTPUT, a.len(), a, b.len(), b);
    }
}

/// The parts of a state after its domain byte, grouped from the right.
spec fn state_fields(a: StateCommitment) -> Seq<u8> {
    a.memory@ + (a.globals@ + (a.operand_stack@ + (a.call_stack@ + (a.segments@ + (a.output@ + (
    le_bytes(a.program_counter.function as nat, 4) + (le_bytes(
        a.program_counter.instruction as nat,
        4,
    ) + le_bytes(a.fuel.0 as nat, 8))))))))
}

proof fn lemma_state_preimage(a: StateCommitment)
    ensures
        a.preimage() == seq![DOMAIN_STATE] + state_fields(a),
{
    assert(a.preimage() =~= seq![DOMAIN_STATE] + state_fields(a));
}

/// Two states with one root agree in every part, or what was hashed for them collides: a root identifies the
/// memory, the globals, both stacks, the dropped segments, the answer, the position and the fuel.
pub proof fn law_root_binds_the_state(a: StateCommitment, b: StateCommitment)
    requires
        a.root_hash() == b.root_hash(),
    ensures
        a == b || is_collision(a.preimage(), b.preimage()),
{
    if a.preimage() == b.preimage() {
        lemma_state_preimage(a);
        lemma_state_preimage(b);
        let d = seq![DOMAIN_STATE];
        lemma_split_equal(d, state_fields(a), d, state_fields(b));
        let (fa, fb) = (le_bytes(a.fuel.0 as nat, 8), le_bytes(b.fuel.0 as nat, 8));
        let (ia, ib) = (
            le_bytes(a.program_counter.instruction as nat, 4) + fa,
            le_bytes(b.program_counter.instruction as nat, 4) + fb,
        );
        let (pa, pb) = (
            le_bytes(a.program_counter.function as nat, 4) + ia,
            le_bytes(b.program_counter.function as nat, 4) + ib,
        );
        let (oa, ob) = (a.output@ + pa, b.output@ + pb);
        let (sa, sb) = (a.segments@ + oa, b.segments@ + ob);
        let (ca, cb) = (a.call_stack@ + sa, b.call_stack@ + sb);
        let (ta, tb) = (a.operand_stack@ + ca, b.operand_stack@ + cb);
        let (ga, gb) = (a.globals@ + ta, b.globals@ + tb);
        lemma_split_equal(a.memory@, ga, b.memory@, gb);
        lemma_split_equal(a.globals@, ta, b.globals@, tb);
        lemma_split_equal(a.operand_stack@, ca, b.operand_stack@, cb);
        lemma_split_equal(a.call_stack@, sa, b.call_stack@, sb);
        lemma_split_equal(a.segments@, oa, b.segments@, ob);
        lemma_split_equal(a.output@, pa, b.output@, pb);
        lemma_numbered(
            a.program_counter.function as nat,
            ia,
            b.program_counter.function as nat,
            ib,
            4,
        );
        lemma_numbered(
            a.program_counter.instruction as nat,
            fa,
            b.program_counter.instruction as nat,
            fb,
            4,
        );
        lemma_pow256_values();
        lemma_le_bytes_injective(a.fuel.0 as nat, b.fuel.0 as nat, 8);
        assert(a.memory =~= b.memory);
        assert(a.globals =~= b.globals);
        assert(a.operand_stack =~= b.operand_stack);
        assert(a.call_stack =~= b.call_stack);
        assert(a.segments =~= b.segments);
        assert(a.output =~= b.output);
    }
}

/// No hash of one kind can be presented as a hash of another: what is hashed begins with a byte
/// that names its kind, and the kinds' bytes all differ.
pub proof fn law_domains_are_distinct(
    state: StateCommitment,
    values: Seq<Value>,
    pages: u32,
    root: Digest,
    labels: Seq<LabelDigest>,
    frames: Seq<FrameDigest>,
    dropped_data: Seq<bool>,
    dropped_elements: Seq<bool>,
    output: Seq<u8>,
)
    ensures
        state.preimage()[0] == DOMAIN_STATE,
        values_preimage(values)[0] == DOMAIN_VALUES,
        memory_preimage(pages, root)[0] == DOMAIN_MEMORY,
        labels_preimage(labels)[0] == DOMAIN_LABELS,
        frames_preimage(frames)[0] == DOMAIN_CALL_STACK,
        segments_preimage(dropped_data, dropped_elements)[0] == DOMAIN_SEGMENTS,
        output_preimage(output)[0] == DOMAIN_OUTPUT,
        crate::merkle::leaf_preimage(output)[0] == crate::merkle::LEAF_DOMAIN,
        crate::merkle::node_preimage(root, root)[0] == crate::merkle::NODE_DOMAIN,
        seq![
            DOMAIN_STATE,
            DOMAIN_VALUES,
            DOMAIN_MEMORY,
            DOMAIN_FRAME,
            DOMAIN_LABELS,
            DOMAIN_CALL_STACK,
            DOMAIN_SEGMENTS,
            DOMAIN_OUTPUT,
            crate::merkle::LEAF_DOMAIN,
            crate::merkle::NODE_DOMAIN,
        ].no_duplicates(),
{
    lemma_state_preimage(state);
}

/// A value is encoded in nine bytes: which type it is of, and its bits as an unsigned number, the
/// lowest byte first.
pub proof fn law_a_value_is_encoded_with_its_type(v: Value)
    ensures
        v.encoding().len() == 9,
        v.encoding()[0] == (match v {
            Value::I32(_) => 0x00u8,
            Value::I64(_) => 0x01u8,
            Value::F32(_) => 0x02u8,
            Value::F64(_) => 0x03u8,
        }),
        le_value(v.encoding().skip(1)) == (match v {
            Value::I32(n) => if n < 0 {
                n + 0x1_0000_0000
            } else {
                n as int
            },
            Value::I64(n) => if n < 0 {
                n + 0x1_0000_0000_0000_0000
            } else {
                n as int
            },
            Value::F32(bits) => bits as int,
            Value::F64(bits) => bits as int,
        }),
{
    let payload = v.payload_of() as nat;
    lemma_le_bytes_len(payload, 8);
    lemma_pow256_values();
    lemma_le_value_of_bytes(payload, 8);
    assert(v.encoding().skip(1) =~= le_bytes(payload, 8));
    match v {
        Value::I32(n) => crate::engine::integers::lemma_unsigned_32(n),
        Value::I64(n) => crate::engine::integers::lemma_unsigned_64(n),
        _ => {},
    }
}

/// A number in some bytes of others.
pub open spec fn number_in(b: Seq<u8>, from: int, to: int) -> nat {
    le_value(b.subrange(from, to))
}

/// What is hashed for a state: its mark, the commitments to its parts in order, where it stands, and
/// its fuel.
pub proof fn law_a_state_is_hashed_in_order(c: StateCommitment)
    ensures
        ({
            let b = c.preimage();
            &&& b.len() == 209
            &&& b[0] == 0x02
            &&& b.subrange(1, 33) == c.memory@
            &&& b.subrange(33, 65) == c.globals@
            &&& b.subrange(65, 97) == c.operand_stack@
            &&& b.subrange(97, 129) == c.call_stack@
            &&& b.subrange(129, 161) == c.segments@
            &&& b.subrange(161, 193) == c.output@
            &&& number_in(b, 193, 197) == c.program_counter.function
            &&& number_in(b, 197, 201) == c.program_counter.instruction
            &&& number_in(b, 201, 209) == c.fuel.0
        }),
{
    let b = c.preimage();
    let (f, i, n) = (
        c.program_counter.function as nat,
        c.program_counter.instruction as nat,
        c.fuel.0 as nat,
    );
    lemma_le_bytes_len(f, 4);
    lemma_le_bytes_len(i, 4);
    lemma_le_bytes_len(n, 8);
    lemma_pow256_values();
    lemma_le_value_of_bytes(f, 4);
    lemma_le_value_of_bytes(i, 4);
    lemma_le_value_of_bytes(n, 8);
    assert(b.subrange(1, 33) =~= c.memory@);
    assert(b.subrange(33, 65) =~= c.globals@);
    assert(b.subrange(65, 97) =~= c.operand_stack@);
    assert(b.subrange(97, 129) =~= c.call_stack@);
    assert(b.subrange(129, 161) =~= c.segments@);
    assert(b.subrange(161, 193) =~= c.output@);
    assert(b.subrange(193, 197) =~= le_bytes(f, 4));
    assert(b.subrange(197, 201) =~= le_bytes(i, 4));
    assert(b.subrange(201, 209) =~= le_bytes(n, 8));
}

/// What is hashed for a frame and for a label of one: their fields in order.
pub proof fn law_a_frame_is_hashed_in_order(f: FrameDigest, l: LabelDigest)
    ensures
        ({
            let b = f.encoding();
            &&& b.len() == 81
            &&& b[0] == 0x05
            &&& number_in(b, 1, 5) == f.function
            &&& number_in(b, 5, 9) == f.instruction
            &&& number_in(b, 9, 13) == f.stack_base
            &&& number_in(b, 13, 17) == f.arity
            &&& b.subrange(17, 49) == f.locals@
            &&& b.subrange(49, 81) == f.labels@
        }),
        ({
            let b = l.encoding();
            &&& b.len() == 13
            &&& number_in(b, 0, 4) == l.branch_target
            &&& number_in(b, 4, 8) == l.arity
            &&& number_in(b, 8, 12) == l.stack_height
            &&& b[12] == if l.is_loop {
                1u8
            } else {
                0
            }
        }),
{
    let (b, d) = (f.encoding(), l.encoding());
    lemma_field(f.function);
    lemma_field(f.instruction);
    lemma_field(f.stack_base);
    lemma_field(f.arity);
    lemma_field(l.branch_target);
    lemma_field(l.arity);
    lemma_field(l.stack_height);
    assert(b.subrange(1, 5) =~= le_bytes(f.function as nat, 4));
    assert(b.subrange(5, 9) =~= le_bytes(f.instruction as nat, 4));
    assert(b.subrange(9, 13) =~= le_bytes(f.stack_base as nat, 4));
    assert(b.subrange(13, 17) =~= le_bytes(f.arity as nat, 4));
    assert(b.subrange(17, 49) =~= f.locals@);
    assert(b.subrange(49, 81) =~= f.labels@);
    assert(d.subrange(0, 4) =~= le_bytes(l.branch_target as nat, 4));
    assert(d.subrange(4, 8) =~= le_bytes(l.arity as nat, 4));
    assert(d.subrange(8, 12) =~= le_bytes(l.stack_height as nat, 4));
}

proof fn lemma_field(n: u32)
    ensures
        le_bytes(n as nat, 4).len() == 4,
        le_value(le_bytes(n as nat, 4)) == n,
{
    lemma_le_bytes_len(n as nat, 4);
    lemma_pow256_values();
    lemma_le_value_of_bytes(n as nat, 4);
}

/// What is hashed for the size and the pages of a memory, and for an answer: their marks, the
/// number of pages or bytes, and the root or the bytes.
pub proof fn law_memory_and_answer_are_hashed_in_order(pages: u32, root: Digest, output: Seq<u8>)
    requires
        output.len() <= u64::MAX,
    ensures
        memory_preimage(pages, root).len() == 37,
        memory_preimage(pages, root)[0] == 0x04,
        number_in(memory_preimage(pages, root), 1, 5) == pages,
        memory_preimage(pages, root).subrange(5, 37) == root@,
        output_preimage(output).len() == 9 + output.len(),
        output_preimage(output)[0] == 0x09,
        number_in(output_preimage(output), 1, 9) == output.len(),
        output_preimage(output).skip(9) == output,
{
    lemma_field(pages);
    lemma_le_bytes_len(output.len(), 8);
    lemma_pow256_values();
    lemma_le_value_of_bytes(output.len(), 8);
    let (b, d) = (memory_preimage(pages, root), output_preimage(output));
    assert(b.subrange(1, 5) =~= le_bytes(pages as nat, 4));
    assert(b.subrange(5, 37) =~= root@);
    assert(d.subrange(1, 9) =~= le_bytes(output.len(), 8));
    assert(d.skip(9) =~= output);
}

} // verus!
