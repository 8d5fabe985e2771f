//! State commitments.
use cairn_runtime::fuel::Fuel;
use cairn_runtime::merkle::PageTree;
use cairn_runtime::state::{
    FrameDigest, LabelDigest, ProgramCounter, StateCommitment, Value, hash_frames, hash_labels,
    hash_memory, hash_output, hash_segments, hash_values,
};

fn commitment() -> StateCommitment {
    StateCommitment {
        memory: PageTree::new(4).root(),
        output: hash_output(b"answer"),
        globals: hash_values(&[Value::I32(1)]),
        operand_stack: hash_values(&[Value::I64(2)]),
        call_stack: hash_values(&[Value::I32(3)]),
        segments: hash_segments(&[false], &[]),
        program_counter: ProgramCounter {
            function: 7,
            instruction: 11,
        },
        fuel: Fuel::new(1234),
    }
}

#[test]
fn a_commitment_is_a_function_of_its_parts() {
    assert_eq!(commitment().root(), commitment().root());
}

#[test]
fn every_component_changes_the_root() {
    // If any part of the state could change without moving the root, a worker could
    // diverge in that part and still appear to agree.
    let base = commitment().root();

    let mut m = commitment();
    m.memory = PageTree::new(8).root();
    assert_ne!(m.root(), base, "memory");

    let mut g = commitment();
    g.globals = hash_values(&[Value::I32(99)]);
    assert_ne!(g.root(), base, "globals");

    let mut s = commitment();
    s.operand_stack = hash_values(&[Value::I64(99)]);
    assert_ne!(s.root(), base, "operand stack");

    let mut c = commitment();
    c.call_stack = hash_values(&[Value::I32(99)]);
    assert_ne!(c.root(), base, "call stack");

    // `data.drop` changes what a later `memory.init` copies, so two executions differing
    // only in which segments they have dropped really are different states.
    let mut seg = commitment();
    seg.segments = hash_segments(&[true], &[]);
    assert_ne!(seg.root(), base, "dropped segments");

    let mut pc = commitment();
    pc.program_counter.instruction += 1;
    assert_ne!(pc.root(), base, "program counter");

    let mut fu = commitment();
    fu.fuel = Fuel::new(1235);
    assert_ne!(fu.root(), base, "fuel");
}

#[test]
fn the_program_counter_distinguishes_function_from_instruction() {
    // A naive encoding that summed or concatenated without fixed width could confuse
    // (1, 2) with (2, 1).
    let a = ProgramCounter {
        function: 1,
        instruction: 2,
    };
    let b = ProgramCounter {
        function: 2,
        instruction: 1,
    };
    assert_ne!(a.encode(), b.encode());
}

#[test]
fn nan_commits_equal_to_itself() {
    // The reason floats are stored as bits. Compared as floats, NaN != NaN, and a worker
    // replaying its own execution would appear to diverge from itself.
    let nan = Value::F64(f64::NAN.to_bits());
    assert_eq!(nan, nan);
    assert_eq!(hash_values(&[nan]), hash_values(&[nan]));
}

#[test]
fn distinct_nan_payloads_are_distinct_states() {
    // Two NaNs the program constructed itself, with different payloads, are genuinely
    // different memory contents. Canonicalization applies to arithmetic results, not to
    // bits a program wrote deliberately.
    let quiet = Value::F64(0x7ff8_0000_0000_0000);
    let payload = Value::F64(0x7ff8_0000_dead_beef);
    assert_ne!(hash_values(&[quiet]), hash_values(&[payload]));
}

#[test]
fn positive_and_negative_zero_are_distinct_states() {
    // They compare equal as floats but a program can tell them apart: 1.0/0.0 is +inf
    // and 1.0/-0.0 is -inf. Two states differing only here really are different.
    let pos = Value::F64(0.0f64.to_bits());
    let neg = Value::F64((-0.0f64).to_bits());
    assert_ne!(pos, neg);
    assert_ne!(hash_values(&[pos]), hash_values(&[neg]));
}

#[test]
fn types_are_distinguished_even_with_identical_payloads() {
    // i32 0, i64 0, f32 +0.0 and f64 +0.0 all have an all-zero payload. Without the tag
    // byte they would be indistinguishable, and a worker could substitute one for
    // another.
    let zeros = [Value::I32(0), Value::I64(0), Value::F32(0), Value::F64(0)];
    for (i, a) in zeros.iter().enumerate() {
        for b in zeros.iter().skip(i + 1) {
            assert_ne!(a.encode(), b.encode(), "{a:?} vs {b:?}");
        }
    }
}

#[test]
fn value_sequences_are_length_bound() {
    // Without the length prefix, values could be moved between two hashed sequences —
    // say from the operand stack into locals — without changing either hash.
    assert_ne!(
        hash_values(&[Value::I32(1), Value::I32(2)]),
        hash_values(&[Value::I32(1)])
    );
    assert_ne!(hash_values(&[]), hash_values(&[Value::I32(0)]));
}

#[test]
fn order_matters() {
    assert_ne!(
        hash_values(&[Value::I32(1), Value::I32(2)]),
        hash_values(&[Value::I32(2), Value::I32(1)])
    );
}

#[test]
fn state_and_value_domains_do_not_collide() {
    let empty_values = hash_values(&[]);
    let state = StateCommitment {
        memory: [0; 32],
        globals: [0; 32],
        operand_stack: [0; 32],
        call_stack: [0; 32],
        segments: [0; 32],
        output: [0; 32],
        program_counter: ProgramCounter::default(),
        fuel: Fuel::zero(),
    };
    assert_ne!(state.root(), empty_values);
}

#[test]
fn memory_growth_changes_the_commitment_even_when_the_new_pages_are_blank() {
    // The reason `hash_memory` exists. A worker that grew its memory and one that did not
    // hold identical bytes while the extra pages are still zero, but `memory.size` returns
    // different values, so they are different states.
    let root = PageTree::new(64).root();
    assert_ne!(hash_memory(1, &root), hash_memory(2, &root));
}

#[test]
fn memory_contents_still_change_the_commitment() {
    let blank = PageTree::new(4).root();
    let mut written = PageTree::new(4);
    written
        .set_page(0, &vec![7u8; cairn_runtime::merkle::PAGE_SIZE])
        .unwrap();
    assert_ne!(hash_memory(4, &blank), hash_memory(4, &written.root()));
}

#[test]
fn every_label_field_changes_the_label_hash() {
    // A branch's behaviour depends on all four, so all four must be bound.
    let base = LabelDigest {
        branch_target: 10,
        arity: 1,
        stack_height: 3,
        is_loop: false,
    };
    let reference = hash_labels(&[base]);

    let mut target = base;
    target.branch_target = 11;
    assert_ne!(hash_labels(&[target]), reference, "branch target");

    let mut arity = base;
    arity.arity = 2;
    assert_ne!(hash_labels(&[arity]), reference, "arity");

    let mut height = base;
    height.stack_height = 4;
    assert_ne!(hash_labels(&[height]), reference, "stack height");

    // A loop label is re-entered by a branch and a block label is exited, so this single
    // bit changes where execution goes next.
    let mut kind = base;
    kind.is_loop = true;
    assert_ne!(hash_labels(&[kind]), reference, "loop flag");
}

#[test]
fn label_and_frame_stacks_are_depth_bound() {
    let label = LabelDigest {
        branch_target: 1,
        arity: 0,
        stack_height: 0,
        is_loop: false,
    };
    assert_ne!(hash_labels(&[label]), hash_labels(&[label, label]));
    assert_ne!(hash_labels(&[]), hash_labels(&[label]));

    let frame = FrameDigest {
        function: 1,
        instruction: 2,
        stack_base: 0,
        arity: 0,
        locals: hash_values(&[]),
        labels: hash_labels(&[]),
    };
    assert_ne!(hash_frames(&[frame]), hash_frames(&[frame, frame]));
    assert_ne!(hash_frames(&[]), hash_frames(&[frame]));
}

#[test]
fn every_frame_field_changes_the_call_stack_hash() {
    let base = FrameDigest {
        function: 3,
        instruction: 4,
        stack_base: 5,
        arity: 1,
        locals: hash_values(&[Value::I32(1)]),
        labels: hash_labels(&[]),
    };
    let reference = hash_frames(&[base]);

    let mut function = base;
    function.function = 4;
    assert_ne!(hash_frames(&[function]), reference, "function");

    let mut instruction = base;
    instruction.instruction = 5;
    assert_ne!(hash_frames(&[instruction]), reference, "instruction");

    let mut stack_base = base;
    stack_base.stack_base = 6;
    assert_ne!(hash_frames(&[stack_base]), reference, "stack base");

    let mut arity = base;
    arity.arity = 2;
    assert_ne!(hash_frames(&[arity]), reference, "arity");

    let mut locals = base;
    locals.locals = hash_values(&[Value::I32(2)]);
    assert_ne!(hash_frames(&[locals]), reference, "locals");

    let mut labels = base;
    labels.labels = hash_labels(&[LabelDigest {
        branch_target: 1,
        arity: 0,
        stack_height: 0,
        is_loop: false,
    }]);
    assert_ne!(hash_frames(&[labels]), reference, "labels");
}

#[test]
fn frame_order_matters() {
    // The call stack is ordered: A calling B is not B calling A.
    let a = FrameDigest {
        function: 1,
        instruction: 0,
        stack_base: 0,
        arity: 0,
        locals: hash_values(&[]),
        labels: hash_labels(&[]),
    };
    let b = FrameDigest { function: 2, ..a };
    assert_ne!(hash_frames(&[a, b]), hash_frames(&[b, a]));
}

#[test]
fn the_new_domains_do_not_collide_with_the_old_ones() {
    // Five hash kinds now share this module. A collision between any two would let a
    // worker present one as another.
    let empty_values = hash_values(&[]);
    let empty_labels = hash_labels(&[]);
    let empty_frames = hash_frames(&[]);
    let memory = hash_memory(0, &[0; 32]);

    let all = [empty_values, empty_labels, empty_frames, memory];
    for (i, a) in all.iter().enumerate() {
        for b in all.iter().skip(i + 1) {
            assert_ne!(a, b, "domain collision");
        }
    }
}

#[test]
fn i32_payloads_are_sign_preserving_and_distinct() {
    // -1 widens to 0xffff_ffff, not to 0xffff_ffff_ffff_ffff, so it must not collide with
    // an i64 of -1 once the tag is accounted for.
    assert_eq!(
        Value::I32(-1).encode(),
        [0x00, 0xff, 0xff, 0xff, 0xff, 0x00, 0x00, 0x00, 0x00]
    );
    assert_eq!(
        Value::I64(-1).encode(),
        [0x01, 0xff, 0xff, 0xff, 0xff, 0xff, 0xff, 0xff, 0xff]
    );
    assert_ne!(Value::I32(-1).encode(), Value::I64(-1).encode());
}
