use std::collections::HashSet;
use vstd::prelude::*;
use vstd::slice::slice_subrange;

verus! {

broadcast use vstd::std_specs::hash::group_hash_axioms;

/// Opcode of the push that carries one operand byte.
pub const PUSH1: usize = 0x60;

/// Opcode of the push that carries thirty-two operand bytes.
pub const PUSH32: usize = 0x7f;

/// The byte reported past the end of the program.
pub const STOP: usize = 0x00;

/// The byte `op`, standing `d` bytes before some offset, is a push whose
/// operand bytes reach that offset.
pub open spec fn pushes_over(op: u8, d: int) -> bool {
    PUSH1 + d - 1 <= op <= PUSH32
}

/// How many bytes before `p` are looked at: at most thirty-two, and never
/// before the start of the program.
pub open spec fn lookback(p: int) -> int {
    if p < 32 {
        p
    } else {
        32
    }
}

/// Offset `q` lies in the window before `p` and holds a push whose operand
/// would cover `p`.
pub open spec fn is_candidate(code: Seq<u8>, p: int, q: int) -> bool {
    p - lookback(p) <= q < p && pushes_over(code[q], p - q)
}

/// Offset `p` of `code` is where an instruction starts: it is inside the
/// program, and no push that itself starts an instruction has `p` among its
/// operand bytes.
pub open spec fn is_instruction_start(code: Seq<u8>, p: int) -> bool
    decreases p,
{
    &&& 0 <= p < code.len()
    &&& !(exists|q: int| #[trigger] is_candidate(code, p, q) && is_instruction_start(code, q))
}

/// An offset covered by a push that starts an instruction does not start one.
proof fn lemma_covered_is_not_start(code: Seq<u8>, p: int, q: int)
    requires
        0 <= p < code.len(),
        is_candidate(code, p, q),
        is_instruction_start(code, q),
    ensures
        !is_instruction_start(code, p),
{
    assert(is_candidate(code, p, q) && is_instruction_start(code, q));
}

/// A cursor over an immutable program: a position that reads move forward,
/// and a memory of which offsets were found to start instructions or not.
pub struct CodeStream {
    program_counter: usize,
    raw_code_bytes: Vec<u8>,
    length_cache: usize,
    invalid_positions: HashSet<usize>,
    valid_positions: HashSet<usize>,
}

/// What a query of offset `p` on cursor `pre` guarantees of its answer `r` and
/// of the cursor `post` it leaves behind.
pub open spec fn query_post(pre: CodeStream, post: CodeStream, p: usize, r: bool) -> bool {
    &&& post.wf()
    &&& r == is_instruction_start(pre.code(), p as int)
    &&& p >= pre.code().len() ==> !r
    &&& post.code() == pre.code()
    &&& post.pc() == pre.pc()
    &&& pre.known_valid().subset_of(post.known_valid())
    &&& pre.known_invalid().subset_of(post.known_invalid())
    &&& p < pre.code().len() ==> post.is_known(p)
    &&& (p >= pre.code().len() || pre.is_known(p)) ==> post == pre
}

impl CodeStream {
    /// The program.
    pub closed spec fn code(&self) -> Seq<u8> {
        self.raw_code_bytes@
    }

    /// The current position.
    pub closed spec fn pc(&self) -> nat {
        self.program_counter as nat
    }

    /// Offsets found to start instructions.
    pub closed spec fn known_valid(&self) -> Set<usize> {
        self.valid_positions@
    }

    /// Offsets found to be operand bytes.
    pub closed spec fn known_invalid(&self) -> Set<usize> {
        self.invalid_positions@
    }

    /// Whether offset `p` has already been decided.
    pub open spec fn is_known(&self, p: usize) -> bool {
        self.known_valid().contains(p) || self.known_invalid().contains(p)
    }

    /// The cached length is the program's, and every remembered answer is
    /// the true one.
    pub closed spec fn wf(&self) -> bool {
        &&& self.length_cache == self.raw_code_bytes@.len()
        &&& forall|q: usize| #[trigger]
            self.valid_positions@.contains(q) ==> is_instruction_start(self.code(), q as int)
        &&& forall|q: usize| #[trigger]
            self.invalid_positions@.contains(q) ==> q < self.length_cache
                && !is_instruction_start(self.code(), q as int)
    }

    /// A cursor at the start of `code_bytes`, with nothing decided yet.
    pub fn new(code_bytes: Vec<u8>) -> (s: CodeStream)
        ensures
            s.wf(),
            s.code() == code_bytes@,
            s.pc() == 0,
            s.known_valid() == Set::<usize>::empty(),
            s.known_invalid() == Set::<usize>::empty(),
    {
        CodeStream {
            program_counter: 0,
            length_cache: code_bytes.len(),
            raw_code_bytes: code_bytes,
            invalid_positions: HashSet::new(),
            valid_positions: HashSet::new(),
        }
    }

    /// The current position.
    pub fn program_counter(&self) -> (r: usize)
        ensures
            r == self.pc(),
    {
        self.program_counter
    }

    /// Moves the cursor to `pc`, which may lie at or past the end.
    pub fn set_program_counter(&mut self, pc: usize)
        requires
            old(self).wf(),
        ensures
            final(self).wf(),
            final(self).pc() == pc,
            final(self).code() == old(self).code(),
            final(self).known_valid() == old(self).known_valid(),
            final(self).known_invalid() == old(self).known_invalid(),
    {
        self.program_counter = pc;
    }

    /// The program's bytes.
    pub fn raw_code_bytes(&self) -> (r: &Vec<u8>)
        ensures
            r@ == self.code(),
    {
        &self.raw_code_bytes
    }

    /// The number of bytes in the program.
    pub fn len(&self) -> (r: usize)
        requires
            self.wf(),
        ensures
            r == self.code().len(),
    {
        self.length_cache
    }

    /// The byte at offset `key`.
    pub fn get_item(&self, key: usize) -> (r: usize)
        requires
            self.wf(),
            key < self.code().len(),
        ensures
            r == self.code()[key as int],
    {
        self.raw_code_bytes[key] as usize
    }

    /// The next `size` bytes; the position moves past them.
    pub fn read(&mut self, size: usize) -> (r: &[u8])
        requires
            old(self).wf(),
            old(self).pc() + size <= old(self).code().len(),
        ensures
            final(self).wf(),
            r@ == old(self).code().subrange(old(self).pc() as int, old(self).pc() + size),
            final(self).pc() == old(self).pc() + size,
            final(self).code() == old(self).code(),
            final(self).known_valid() == old(self).known_valid(),
            final(self).known_invalid() == old(self).known_invalid(),
    {
        let old_program_counter = self.program_counter;
        let target_program_counter = old_program_counter + size;
        self.program_counter = target_program_counter;
        slice_subrange(self.raw_code_bytes.as_slice(), old_program_counter, target_program_counter)
    }

    /// The byte at the current position, or `STOP` once the position has
    /// reached the end.
    pub fn peek(&self) -> (r: usize)
        requires
            self.wf(),
        ensures
            self.pc() < self.code().len() ==> r == self.code()[self.pc() as int],
            self.pc() >= self.code().len() ==> r == STOP,
    {
        let pc = self.program_counter;
        if pc < self.length_cache {
            self.raw_code_bytes[pc] as usize
        } else {
            STOP
        }
    }

    /// Whether offset `position` starts an instruction. The answer is
    /// remembered, so asking again changes nothing.
    pub fn is_valid_opcode(&mut self, position: usize) -> (r: bool)
        requires
            old(self).wf(),
        ensures
            query_post(*old(self), *final(self), position, r),
        decreases position,
    {
        if position >= self.length_cache || self.invalid_positions.contains(&position) {
            return false;
        }
        if self.valid_positions.contains(&position) {
            return true;
        }
        // A push before `position` makes it operand data only if that push is
        // itself an instruction, which is the same question asked further back.
        let candidates = self.potentially_disqualifying_opcode_positions(position);
        let mut i: usize = 0;
        while i < candidates.len()
            invariant
                self.wf(),
                position < self.code().len(),
                !old(self).is_known(position),
                self.code() == old(self).code(),
                self.pc() == old(self).pc(),
                old(self).known_valid().subset_of(self.known_valid()),
                old(self).known_invalid().subset_of(self.known_invalid()),
                forall|j: int| 0 <= j < candidates.len() ==> is_candidate(self.code(), position as int, #[trigger] candidates@[j] as int),
                forall|q: int| is_candidate(self.code(), position as int, q) ==> candidates@.contains(q as usize),
                forall|j: int| 0 <= j < i ==> !is_instruction_start(self.code(), #[trigger] candidates@[j] as int),
            decreases candidates.len() - i,
        {
            let q = candidates[i];
            if self.is_valid_opcode(q) {
                proof {
                    lemma_covered_is_not_start(self.code(), position as int, q as int);
                }
                self.invalid_positions.insert(position);
                return false;
            }
            i += 1;
        }
        proof {
            assert forall|q: int| is_candidate(self.code(), position as int, q) implies !is_instruction_start(self.code(), q) by {
                let j = candidates@.index_of(q as usize);
            }
        }
        self.valid_positions.insert(position);
        true
    }

    /// The offsets in the thirty-two bytes before `position` that hold a push
    /// long enough to cover `position`, nearest first.
    fn potentially_disqualifying_opcode_positions(&self, position: usize) -> (r: Vec<usize>)
        requires
            self.wf(),
            position <= self.code().len(),
        ensures
            forall|j: int| 0 <= j < r.len() ==> is_candidate(self.code(), position as int, #[trigger] r@[j] as int),
            forall|q: int| is_candidate(self.code(), position as int, q) ==> r@.contains(q as usize),
            forall|j: int, k: int| 0 <= j < k < r.len() ==> r@[j] > r@[k],
    {
        let deepest_lookback = if position < 32 { position } else { 32 };
        let mut r: Vec<usize> = Vec::new();
        let mut bytes_back: usize = 1;
        while bytes_back <= deepest_lookback
            invariant
                self.wf(),
                position <= self.code().len(),
                deepest_lookback == lookback(position as int),
                1 <= bytes_back <= deepest_lookback + 1,
                forall|j: int| 0 <= j < r.len() ==> is_candidate(self.code(), position as int, #[trigger] r@[j] as int)
                    && r@[j] > position - bytes_back,
                forall|q: int| position - bytes_back < q && #[trigger] is_candidate(self.code(), position as int, q) ==> r@.contains(q as usize),
                forall|j: int, k: int| 0 <= j < k < r.len() ==> r@[j] > r@[k],
            decreases deepest_lookback + 1 - bytes_back,
        {
            let earlier_position = position - bytes_back;
            let opcode = self.raw_code_bytes[earlier_position] as usize;
            if PUSH1 + (bytes_back - 1) <= opcode && opcode <= PUSH32 {
                let ghost prev = r@;
                r.push(earlier_position);
                proof {
                    assert(r@[r.len() - 1] == earlier_position);
                    assert forall|q: int| position - bytes_back - 1 < q && #[trigger] is_candidate(self.code(), position as int, q) implies r@.contains(q as usize) by {
                        if q == earlier_position {
                            assert(r@[r.len() - 1] == q as usize);
                        } else {
                            let j = choose|j: int| 0 <= j < prev.len() && prev[j] == q as usize;
                            assert(r@[j] == q as usize);
                        }
                    }
                }
            }
            bytes_back += 1;
        }
        r
    }
}

/// Two reads in a row return together what one read of the combined size
/// returns: the bytes `[pc, pc + a)` followed by `[pc + a, pc + a + b)` are the
/// bytes `[pc, pc + a + b)`.
pub proof fn lemma_consecutive_reads(s: CodeStream, a: int, b: int)
    requires
        s.wf(),
        0 <= a,
        0 <= b,
        s.pc() + a + b <= s.code().len(),
    ensures
        s.code().subrange(s.pc() as int, s.pc() + a) + s.code().subrange(
            s.pc() + a,
            s.pc() + a + b,
        ) == s.code().subrange(s.pc() as int, s.pc() + a + b),
{
    assert(s.code().subrange(s.pc() as int, s.pc() + a) + s.code().subrange(s.pc() + a, s.pc() + a
        + b) =~= s.code().subrange(s.pc() as int, s.pc() + a + b));
}

/// Asking twice about the same offset gives the same answer, and the second
/// query leaves the cursor exactly as the first one left it.
pub proof fn lemma_query_idempotent(
    s0: CodeStream,
    s1: CodeStream,
    s2: CodeStream,
    p: usize,
    r1: bool,
    r2: bool,
)
    requires
        s0.wf(),
        query_post(s0, s1, p, r1),
        query_post(s1, s2, p, r2),
    ensures
        r1 == r2,
        s2 == s1,
{
}

/// No offset is remembered both as an instruction start and as operand data.
pub proof fn lemma_caches_disjoint(s: CodeStream)
    requires
        s.wf(),
    ensures
        s.known_valid().disjoint(s.known_invalid()),
{
}

/// Every offset remembered as valid starts an instruction, and every offset
/// remembered as invalid lies inside the program and does not.
pub proof fn lemma_caches_sound(s: CodeStream)
    requires
        s.wf(),
    ensures
        forall|q: usize| #[trigger]
            s.known_valid().contains(q) ==> is_instruction_start(s.code(), q as int),
        forall|q: usize| #[trigger]
            s.known_invalid().contains(q) ==> q < s.code().len() && !is_instruction_start(
                s.code(),
                q as int,
            ),
{
}

/// No offset at or past the end of the program starts an instruction.
pub proof fn lemma_past_end_is_not_start(code: Seq<u8>, p: int)
    requires
        p >= code.len(),
    ensures
        !is_instruction_start(code, p),
{
}

} // verus!
