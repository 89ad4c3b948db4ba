//! Evaluation of DWARF location expressions, through gimli's evaluator.
//! Locals are addressed relative to the frame base, which is taken to be
//! zero, so that the address found is the offset from the frame base.

use vstd::prelude::*;

verus! {

/// How the addresses and offsets of a compilation unit are encoded.
#[derive(Clone, Copy, Debug, PartialEq, Eq, Structural)]
pub struct UnitEncoding {
    pub address_size: u8,
    pub dwarf64: bool,
    pub version: u16,
}

/// Where an evaluation stands.
#[derive(Clone, Copy, Debug, PartialEq, Eq, Structural)]
pub enum EvalStep {
    /// The result can be taken.
    Complete,
    /// The evaluation waits for the frame base.
    NeedsFrameBase,
    /// The evaluation waits for something else: a register, memory, the CFA.
    NeedsOther,
    /// The expression is malformed or uses an unsupported operation.
    Failed,
}

/// The frame bases supplied to an evaluator so far, and the step it stands at.
pub enum Stage {
    Fresh,
    At(Seq<u64>, EvalStep),
}

/// The location of one piece of an evaluated expression.
#[derive(Clone, Copy, Debug, PartialEq, Eq, Structural)]
pub enum PieceLocation {
    /// The piece is in memory at this address.
    Address(u64),
    /// The piece is in a register, is a known value, or is absent.
    Elsewhere,
}

/// The address sizes that a unit header can give.
pub open spec fn valid_encoding(enc: UnitEncoding) -> bool {
    enc.address_size == 1 || enc.address_size == 2 || enc.address_size == 4 || enc.address_size == 8
}

/// The step that gimli's evaluator stands at over the expression `bytes`,
/// with at most `max_iterations` operations evaluated, once the frame bases
/// `bases` have been supplied in turn.
pub uninterp spec fn eval_step(
    bytes: Seq<u8>,
    address_size: u8,
    dwarf64: bool,
    version: u16,
    max_iterations: u32,
    bases: Seq<u64>,
) -> EvalStep;

/// The locations of the pieces that gimli's evaluator gives for a complete
/// evaluation, as `eval_step`.
pub uninterp spec fn eval_pieces(
    bytes: Seq<u8>,
    address_size: u8,
    dwarf64: bool,
    version: u16,
    max_iterations: u32,
    bases: Seq<u64>,
) -> Seq<PieceLocation>;

/// gimli's evaluator over an expression's bytes.
#[verifier::external_body]
pub struct Evaluator<'a> {
    eval: gimli::Evaluation<gimli::EndianSlice<'a, gimli::LittleEndian>>,
}

/// An evaluator, the expression, encoding and operation bound it was made
/// with, and the stage it stands at.
pub struct LocationEval<'a> {
    inner: Evaluator<'a>,
    input: Ghost<(Seq<u8>, UnitEncoding, u32)>,
    stage: Ghost<Stage>,
}

pub open spec fn step_of(input: (Seq<u8>, UnitEncoding, u32), bases: Seq<u64>) -> EvalStep {
    eval_step(input.0, input.1.address_size, input.1.dwarf64, input.1.version, input.2, bases)
}

pub open spec fn pieces_of(input: (Seq<u8>, UnitEncoding, u32), bases: Seq<u64>) -> Seq<PieceLocation> {
    eval_pieces(input.0, input.1.address_size, input.1.dwarf64, input.1.version, input.2, bases)
}

/// Relies on gimli::Expression::evaluation and
/// gimli::Evaluation::set_max_iterations: an evaluator over the bytes, not
/// started, that fails once it has evaluated `max_iterations` operations.
/// The address size must be one that a unit header can give: gimli builds
/// an address mask by shifting with it.
#[verifier::external_body]
fn new_evaluation<'a>(bytes: &'a [u8], enc: UnitEncoding, max_iterations: u32) -> (r: LocationEval<'a>)
    requires
        valid_encoding(enc),
    ensures
        r.input@ == (bytes@, enc, max_iterations),
        r.stage@ == Stage::Fresh,
{
    let encoding = gimli::Encoding {
        address_size: enc.address_size,
        format: if enc.dwarf64 { gimli::Format::Dwarf64 } else { gimli::Format::Dwarf32 },
        version: enc.version,
    };
    let mut eval = gimli::Expression(gimli::EndianSlice::new(bytes, gimli::LittleEndian)).evaluation(encoding);
    eval.set_max_iterations(max_iterations);
    LocationEval { inner: Evaluator { eval }, input: Ghost((bytes@, enc, max_iterations)), stage: Ghost(Stage::Fresh) }
}

/// Relies on gimli::Evaluation::evaluate, which may be called once, on an
/// evaluator that has not started; the evaluator then stands at the step
/// that it returns.
#[verifier::external_body]
fn evaluate(e: &mut LocationEval) -> (r: EvalStep)
    requires
        old(e).stage@ == Stage::Fresh,
    ensures
        final(e).input == old(e).input,
        final(e).stage@ == Stage::At(Seq::<u64>::empty(), r),
        r == eval_step(
            old(e).input@.0,
            old(e).input@.1.address_size,
            old(e).input@.1.dwarf64,
            old(e).input@.1.version,
            old(e).input@.2,
            Seq::<u64>::empty(),
        ),
{
    match e.inner.eval.evaluate() {
        Ok(gimli::EvaluationResult::Complete) => EvalStep::Complete,
        Ok(gimli::EvaluationResult::RequiresFrameBase) => EvalStep::NeedsFrameBase,
        Ok(_) => EvalStep::NeedsOther,
        Err(_) => EvalStep::Failed,
    }
}

/// Relies on gimli::Evaluation::resume_with_frame_base, which may be called
/// only when the evaluator waits for the frame base; the evaluator then
/// stands at the step that it returns.
#[verifier::external_body]
fn resume_with_frame_base(e: &mut LocationEval, frame_base: u64) -> (r: EvalStep)
    requires
        old(e).stage@ matches Stage::At(_, EvalStep::NeedsFrameBase),
    ensures
        final(e).input == old(e).input,
        ({
            let bases = match old(e).stage@ {
                Stage::At(b, _) => b,
                Stage::Fresh => Seq::<u64>::empty(),
            };
            &&& final(e).stage@ == Stage::At(bases.push(frame_base), r)
            &&& r == eval_step(
                old(e).input@.0,
                old(e).input@.1.address_size,
                old(e).input@.1.dwarf64,
                old(e).input@.1.version,
                old(e).input@.2,
                bases.push(frame_base),
            )
        }),
{
    match e.inner.eval.resume_with_frame_base(frame_base) {
        Ok(gimli::EvaluationResult::Complete) => EvalStep::Complete,
        Ok(gimli::EvaluationResult::RequiresFrameBase) => EvalStep::NeedsFrameBase,
        Ok(_) => EvalStep::NeedsOther,
        Err(_) => EvalStep::Failed,
    }
}

/// Relies on gimli::Evaluation::result, which may be called only on a
/// complete evaluation: the locations of the pieces of the result.
#[verifier::external_body]
fn result_pieces(e: LocationEval) -> (r: Vec<PieceLocation>)
    requires
        e.stage@ matches Stage::At(_, EvalStep::Complete),
    ensures
        ({
            let bases = match e.stage@ {
                Stage::At(b, _) => b,
                Stage::Fresh => Seq::<u64>::empty(),
            };
            r@ == eval_pieces(
                e.input@.0,
                e.input@.1.address_size,
                e.input@.1.dwarf64,
                e.input@.1.version,
                e.input@.2,
                bases,
            )
        }),
{
    e.inner.eval.result().into_iter().map(|p| match p.location {
        gimli::Location::Address { address } => PieceLocation::Address(address),
        _ => PieceLocation::Elsewhere,
    }).collect()
}

/// The two's complement reading of a 64-bit word.
pub open spec fn as_signed(a: u64) -> i64 {
    if a <= i64::MAX as u64 {
        a as i64
    } else {
        (a - 0x1_0000_0000_0000_0000) as i64
    }
}

pub fn to_signed(a: u64) -> (r: i64)
    ensures
        r == as_signed(a),
{
    if a <= i64::MAX as u64 {
        a as i64
    } else {
        -((u64::MAX - a) as i64) - 1
    }
}

/// The most operations that one evaluation may take; a longer evaluation,
/// which a backward branch can cause, fails.
pub const EVAL_STEP_LIMIT: u32 = 0x1_0000;

/// `n` frame bases of zero.
pub open spec fn zero_bases(n: nat) -> Seq<u64> {
    Seq::new(n, |i: int| 0u64)
}

/// The number of frame bases of zero supplied, from `n` on, while the
/// evaluation asks for one, at most `limit` in all.
pub open spec fn bases_supplied(input: (Seq<u8>, UnitEncoding, u32), n: nat, limit: nat) -> nat
    decreases limit - n,
{
    if n < limit && step_of(input, zero_bases(n)) == EvalStep::NeedsFrameBase {
        bases_supplied(input, n + 1, limit)
    } else {
        n
    }
}

/// The offset from the frame base that the location expression `bytes`
/// gives: the evaluation is resumed with a frame base of zero whenever it
/// asks for one, at most once for each byte of the expression; a complete
/// evaluation whose first piece is in memory gives that address. Anything
/// else (another request, a failure, a piece elsewhere, an address size
/// that no unit header gives) gives nothing.
pub open spec fn frame_offset_spec(bytes: Seq<u8>, enc: UnitEncoding) -> Option<i64> {
    if !valid_encoding(enc) {
        None
    } else {
        let input = (bytes, enc, EVAL_STEP_LIMIT);
        let n = bases_supplied(input, 0, bytes.len());
        if step_of(input, zero_bases(n)) != EvalStep::Complete {
            None
        } else {
            let pieces = pieces_of(input, zero_bases(n));
            if pieces.len() > 0 && pieces[0] is Address {
                Some(as_signed(pieces[0]->Address_0))
            } else {
                None
            }
        }
    }
}

/// Evaluates the location expression `bytes` with a frame base of zero.
pub fn frame_offset(bytes: &Vec<u8>, enc: UnitEncoding) -> (r: Option<i64>)
    ensures
        r == frame_offset_spec(bytes@, enc),
{
    if !(enc.address_size == 1 || enc.address_size == 2 || enc.address_size == 4 || enc.address_size == 8) {
        return None;
    }
    let mut e = new_evaluation(bytes.as_slice(), enc, EVAL_STEP_LIMIT);
    let ghost input = e.input@;
    let mut step = evaluate(&mut e);
    let mut rounds: usize = 0;
    proof {
        assert(zero_bases(0) =~= Seq::<u64>::empty());
    }
    while step == EvalStep::NeedsFrameBase && rounds < bytes.len()
        invariant
            input == (bytes@, enc, EVAL_STEP_LIMIT),
            e.input@ == input,
            rounds <= bytes@.len(),
            e.stage@ == Stage::At(zero_bases(rounds as nat), step),
            step == step_of(input, zero_bases(rounds as nat)),
            bases_supplied(input, rounds as nat, bytes@.len()) == bases_supplied(input, 0, bytes@.len()),
        decreases bytes@.len() - rounds,
    {
        step = resume_with_frame_base(&mut e, 0);
        proof {
            assert(zero_bases(rounds as nat).push(0) =~= zero_bases(rounds as nat + 1));
        }
        rounds = rounds + 1;
    }
    proof {
        assert(bases_supplied(input, rounds as nat, bytes@.len()) == rounds);
    }
    if step != EvalStep::Complete {
        return None;
    }
    let pieces = result_pieces(e);
    if pieces.len() == 0 {
        return None;
    }
    match pieces[0] {
        PieceLocation::Address(a) => Some(to_signed(a)),
        PieceLocation::Elsewhere => None,
    }
}

} // verus!
