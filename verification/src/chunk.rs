//! The bytecode chunk: an append-only byte buffer of encoded instructions,
//! a constant pool, and a deduplicated global-name table, together with
//! two-phase forward-jump backpatching and a sequential decode cursor.

use vstd::prelude::*;

use crate::op::{
    be_hi, be_lo, is_jump_tag, jump_op, op_bytes, scan_spec, tag_of, Op, OpError,
};

verus! {

/// A literal value in a chunk's constant pool. The pool is append-only and
/// not deduplicated.
#[derive(Debug, Clone, PartialEq, Eq)]
pub enum Constant {
    /// An unsigned 64-bit integer literal.
    Integer(u64),
    /// A 64-bit floating-point literal, held as its IEEE-754 bit pattern.
    Float(u64),
    /// A text literal.
    String(String),
}

/// The mathematical value of a [`Constant`].
pub enum ConstantView {
    Integer(u64),
    Float(u64),
    String(Seq<char>),
}

impl View for Constant {
    type V = ConstantView;

    open spec fn view(&self) -> ConstantView {
        match self {
            Constant::Integer(n) => ConstantView::Integer(*n),
            Constant::Float(bits) => ConstantView::Float(*bits),
            Constant::String(s) => ConstantView::String(s@),
        }
    }
}

impl DeepView for Constant {
    type V = ConstantView;

    open spec fn deep_view(&self) -> ConstantView {
        self.view()
    }
}

/// The mathematical value of a [`Chunk`]: its three collections, with every
/// constant and name reduced to its own mathematical value.
pub struct ChunkView {
    pub constants: Seq<ConstantView>,
    pub globals: Seq<Seq<char>>,
    pub code: Seq<u8>,
}

/// The unit of compiled bytecode: a code buffer of concatenated encoded
/// instructions, an append-only constant pool, and a global-name table that
/// maps each distinct name to the index of its first registration.
#[derive(Debug, PartialEq)]
pub struct Chunk {
    pub constants: Vec<Constant>,
    pub globals: Vec<String>,
    pub code: Vec<u8>,
}

impl View for Chunk {
    type V = ChunkView;

    open spec fn view(&self) -> ChunkView {
        ChunkView {
            constants: self.constants.deep_view(),
            globals: self.globals.deep_view(),
            code: self.code@,
        }
    }
}

/// Whether `name` occurs in the global table.
pub open spec fn has_name(globals: Seq<Seq<char>>, name: Seq<char>) -> bool {
    exists|i: int| 0 <= i < globals.len() && globals[i] == name
}

/// The index of the first occurrence of `name` in the global table
/// (meaningful only when [`has_name`] holds).
pub open spec fn name_index(globals: Seq<Seq<char>>, name: Seq<char>) -> int
    decreases globals.len(),
{
    if globals.len() == 0 {
        0
    } else if globals[0] == name {
        0
    } else {
        1 + name_index(globals.drop_first(), name)
    }
}

/// What registering `name` in the global table yields: the table afterwards
/// and the index handed back. A name already present keeps its index and
/// leaves the table unchanged; a new name is appended.
pub open spec fn register(globals: Seq<Seq<char>>, name: Seq<char>) -> (Seq<Seq<char>>, int) {
    if has_name(globals, name) {
        (globals, name_index(globals, name))
    } else {
        (globals.push(name), globals.len() as int)
    }
}

/// When `name` is present, [`name_index`] is its first occurrence: it is in
/// bounds, holds `name`, and no earlier slot does.
pub proof fn lemma_name_index(globals: Seq<Seq<char>>, name: Seq<char>)
    requires
        has_name(globals, name),
    ensures
        0 <= name_index(globals, name) < globals.len(),
        globals[name_index(globals, name)] == name,
        forall|j: int| 0 <= j < name_index(globals, name) ==> globals[j] != name,
    decreases globals.len(),
{
    if globals[0] == name {
    } else {
        let w = choose|i: int| 0 <= i < globals.len() && globals[i] == name;
        assert(globals.drop_first()[w - 1] == name);
        lemma_name_index(globals.drop_first(), name);
        assert forall|j: int| 0 <= j < name_index(globals, name) implies globals[j] != name by {
            if j > 0 {
                assert(globals.drop_first()[j - 1] == globals[j]);
            }
        }
    }
}

/// A slot that holds `name`, with no earlier slot holding it, is the slot
/// that [`name_index`] names.
pub proof fn lemma_name_index_first(globals: Seq<Seq<char>>, name: Seq<char>, i: int)
    requires
        0 <= i < globals.len(),
        globals[i] == name,
        forall|j: int| 0 <= j < i ==> globals[j] != name,
    ensures
        name_index(globals, name) == i,
    decreases globals.len(),
{
    if i == 0 {
    } else {
        assert(globals[0] != name);
        assert(globals.drop_first()[i - 1] == name);
        assert forall|j: int| 0 <= j < i - 1 implies globals.drop_first()[j] != name by {
            assert(globals.drop_first()[j] == globals[j + 1]);
        }
        lemma_name_index_first(globals.drop_first(), name, i - 1);
    }
}

/// Appending an absent name puts its first occurrence at the old length.
pub proof fn lemma_name_index_push(globals: Seq<Seq<char>>, name: Seq<char>)
    requires
        !has_name(globals, name),
    ensures
        has_name(globals.push(name), name),
        name_index(globals.push(name), name) == globals.len(),
{
    let pushed = globals.push(name);
    assert(pushed[globals.len() as int] == name);
    assert forall|j: int| 0 <= j < globals.len() implies pushed[j] != name by {
        assert(pushed[j] == globals[j]);
    }
    lemma_name_index_first(pushed, name, globals.len() as int);
}

/// The global table deduplicates: registering a name a second time returns
/// the index the first registration returned, and changes nothing.
pub proof fn lemma_global_dedup(globals: Seq<Seq<char>>, name: Seq<char>)
    ensures
        register(register(globals, name).0, name).0 == register(globals, name).0,
        register(register(globals, name).0, name).1 == register(globals, name).1,
{
    if !has_name(globals, name) {
        lemma_name_index_push(globals, name);
    }
}

/// An instruction that may be handed to [`Chunk::prepare_jump`]: one of the
/// five jump kinds, whose encoding reserves two operand bytes to patch.
pub open spec fn is_jump(op: Op) -> bool {
    is_jump_tag(tag_of(op))
}

/// An opaque handle to a jump instruction emitted with a placeholder
/// operand: it remembers the byte offset of that instruction, and is
/// consumed exactly once by [`Chunk::set_jump_target`]. Its view is that
/// offset.
#[must_use]
#[derive(Debug)]
pub struct PendingJump {
    offset: usize,
}

impl View for PendingJump {
    type V = int;

    closed spec fn view(&self) -> int {
        self.offset as int
    }
}

impl Default for Chunk {
    /// An empty chunk: no constants, no globals, no code.
    fn default() -> (c: Chunk)
        ensures
            c@.constants == Seq::<ConstantView>::empty(),
            c@.globals == Seq::<Seq<char>>::empty(),
            c@.code == Seq::<u8>::empty(),
    {
        let c = Chunk { constants: Vec::new(), globals: Vec::new(), code: Vec::new() };
        proof {
            assert(c@.constants =~= Seq::<ConstantView>::empty());
            assert(c@.globals =~= Seq::<Seq<char>>::empty());
            assert(c@.code =~= Seq::<u8>::empty());
        }
        c
    }
}

impl Chunk {
    /// Encode `op` and append its bytes to the code buffer.
    pub fn push(&mut self, op: Op)
        ensures
            final(self)@.code == old(self)@.code + op_bytes(op),
            final(self)@.constants == old(self)@.constants,
            final(self)@.globals == old(self)@.globals,
    {
        let mut bytes = op.to_bytes();
        self.code.append(&mut bytes);
    }

    /// Append a constant to the pool and return its index. The pool holds
    /// at most 255 entries; the compiler driving this builder must stay
    /// under that ceiling, so a full pool is excluded by precondition
    /// rather than silently wrapping the index.
    pub fn add_constant(&mut self, constant: Constant) -> (idx: u8)
        requires
            old(self)@.constants.len() < 255,
        ensures
            idx as int == old(self)@.constants.len(),
            final(self)@.constants == old(self)@.constants.push(constant@),
            final(self)@.globals == old(self)@.globals,
            final(self)@.code == old(self)@.code,
    {
        let ghost cv = constant@;
        let idx = self.constants.len() as u8;
        self.constants.push(constant);
        proof {
            assert(self@.constants =~= old(self)@.constants.push(cv));
        }
        idx
    }

    /// The index of the first slot holding `name`, if any. A `Some` index
    /// always fits in a byte because the table never exceeds 255 entries.
    fn find_global(&self, name: &String) -> (r: Option<u8>)
        requires
            self@.globals.len() <= 255,
        ensures
            r matches Some(idx) ==> has_name(self@.globals, name@) && idx as int == name_index(
                self@.globals,
                name@,
            ),
            r is None ==> !has_name(self@.globals, name@),
    {
        let n = self.globals.len();
        let mut i: usize = 0;
        while i < n
            invariant
                i <= n,
                n == self@.globals.len() <= 255,
                forall|j: int| 0 <= j < i ==> self@.globals[j] != name@,
            decreases n - i,
        {
            if self.globals[i] == *name {
                proof {
                    assert(self@.globals[i as int] == name@);
                    assert(has_name(self@.globals, name@));
                    lemma_name_index_first(self@.globals, name@, i as int);
                }
                return Some(i as u8);
            }
            i += 1;
        }
        None
    }

    /// Register `name` in the global table: return the existing index if
    /// the name is already present, otherwise append it and return its new
    /// index. The table shares the 255-entry ceiling of the constant pool,
    /// so appending to a full table is excluded by precondition.
    pub fn make_global(&mut self, name: String) -> (idx: u8)
        requires
            old(self)@.globals.len() <= 255,
            has_name(old(self)@.globals, name@) || old(self)@.globals.len() < 255,
        ensures
            final(self)@.globals == register(old(self)@.globals, name@).0,
            idx as int == register(old(self)@.globals, name@).1,
            final(self)@.constants == old(self)@.constants,
            final(self)@.code == old(self)@.code,
    {
        match self.find_global(&name) {
            Some(idx) => idx,
            None => {
                let ghost nv = name@;
                let idx = self.globals.len() as u8;
                self.globals.push(name);
                proof {
                    assert(self@.globals =~= old(self)@.globals.push(nv));
                }
                idx
            },
        }
    }

    /// Register `name` and immediately emit a global-define instruction
    /// carrying the returned index: "declare and immediately bind".
    pub fn define_global(&mut self, name: String) -> (idx: u8)
        requires
            old(self)@.globals.len() <= 255,
            has_name(old(self)@.globals, name@) || old(self)@.globals.len() < 255,
        ensures
            final(self)@.globals == register(old(self)@.globals, name@).0,
            idx as int == register(old(self)@.globals, name@).1,
            final(self)@.code == old(self)@.code + op_bytes(Op::GlobalDefine(idx)),
            final(self)@.constants == old(self)@.constants,
    {
        let idx = self.make_global(name);
        self.push(Op::GlobalDefine(idx));
        idx
    }

    /// Remember the current buffer length as a jump's instruction offset,
    /// emit the jump (its operand a placeholder to be patched later), and
    /// hand back the offset wrapped as a [`PendingJump`].
    pub fn prepare_jump(&mut self, op: Op) -> (jump: PendingJump)
        requires
            is_jump(op),
        ensures
            jump@ == old(self)@.code.len(),
            final(self)@.code == old(self)@.code + op_bytes(op),
            final(self)@.constants == old(self)@.constants,
            final(self)@.globals == old(self)@.globals,
    {
        let idx = self.code.len();
        self.push(op);
        PendingJump { offset: idx }
    }

    /// Patch the jump that `jump` remembers so that it targets the current
    /// end of the code buffer: the two placeholder bytes are overwritten
    /// with the big-endian relative offset from the position just after the
    /// jump's three encoded bytes to the target. The distance must fit in a
    /// signed 16-bit value; the buffer may only have grown since
    /// [`Chunk::prepare_jump`] handed the handle out, so the jump's three
    /// bytes are still in place. Decoding at the jump's offset afterwards
    /// yields the jump instruction with the patched offset.
    pub fn set_jump_target(&mut self, jump: PendingJump)
        requires
            jump@ + 3 <= old(self)@.code.len(),
            is_jump_tag(old(self)@.code[jump@]),
            old(self)@.code.len() - jump@ <= 0x7fff,
        ensures
            ({
                let off = (old(self)@.code.len() - jump@) as i16;
                &&& final(self)@.code == old(self)@.code.update(jump@ + 1, be_hi(off)).update(
                    jump@ + 2,
                    be_lo(off),
                )
                &&& scan_spec(final(self)@.code.skip(jump@)) == Ok::<Option<Op>, OpError>(
                    Some(jump_op(old(self)@.code[jump@], off)),
                )
            }),
            final(self)@.code.len() == old(self)@.code.len(),
            final(self)@.constants == old(self)@.constants,
            final(self)@.globals == old(self)@.globals,
    {
        let idx = jump.offset;
        let target = self.code.len();
        let distance: usize = target - idx;
        let off16: i16 = distance as i16;
        let u: u16 = off16 as u16;
        let hi: u8 = (u >> 8) as u8;
        let lo: u8 = u as u8;
        self.code[idx + 1] = hi;
        self.code[idx + 2] = lo;
        proof {
            let t = old(self)@.code[idx as int];
            let off = (old(self)@.code.len() - jump@) as i16;
            let c2 = self@.code;
            assert(c2.skip(idx as int) =~= op_bytes(jump_op(t, off)).add(
                c2.skip(idx as int + 3),
            ));
            crate::op::lemma_scan_op_bytes(jump_op(t, off), c2.skip(idx as int + 3));
        }
    }

    /// A forward-only decode cursor over the code buffer, starting at
    /// offset 0.
    pub fn iter_code<'a>(&'a self) -> (it: CodeIterator<'a>)
        ensures
            it.code_spec() == self@.code,
            it.pc_spec() == 0,
            !it.errored_spec(),
            it.wf(),
    {
        CodeIterator { code: self.code.as_slice(), pc: 0, errored: false }
    }
}

/// A lazy, forward-only sequence of `(position, instruction)` pairs,
/// produced by decoding the code buffer from offset 0 and advancing by each
/// instruction's encoded size. After the first decode error the cursor is
/// permanently exhausted: a corrupt stream stops the walk, it is never
/// resynchronized.
pub struct CodeIterator<'a> {
    code: &'a [u8],
    pc: usize,
    errored: bool,
}

impl<'a> CodeIterator<'a> {
    /// The byte buffer being walked.
    pub closed spec fn code_spec(&self) -> Seq<u8> {
        self.code@
    }

    /// The cursor: the offset at which the next instruction is decoded.
    pub closed spec fn pc_spec(&self) -> int {
        self.pc as int
    }

    /// Whether a decode error has exhausted the cursor.
    pub closed spec fn errored_spec(&self) -> bool {
        self.errored
    }

    /// The cursor never leaves the buffer.
    pub closed spec fn wf(&self) -> bool {
        self.pc <= self.code@.len()
    }

    /// Decode the instruction at the cursor and advance past it. Yields
    /// `None` once the buffer is exhausted — cleanly at its end, or
    /// permanently after an error was yielded once.
    pub fn next(&mut self) -> (r: Option<Result<(usize, Op), OpError>>)
        requires
            old(self).wf(),
        ensures
            final(self).wf(),
            final(self).code_spec() == old(self).code_spec(),
            old(self).errored_spec() ==> r is None && *final(self) == *old(self),
            !old(self).errored_spec() ==> match scan_spec(
                old(self).code_spec().skip(old(self).pc_spec()),
            ) {
                Ok(decoded) => match decoded {
                    Some(op) => (r matches Some(Ok((pos, decoded_op))) && pos as int == old(
                        self,
                    ).pc_spec() && decoded_op == op) && final(self).pc_spec() == old(
                        self,
                    ).pc_spec() + op_bytes(op).len() && !final(self).errored_spec(),
                    None => r is None && *final(self) == *old(self),
                },
                Err(e) => r == Some(Err::<(usize, Op), OpError>(e)) && final(self).pc_spec()
                    == old(self).pc_spec() && final(self).errored_spec(),
            },
    {
        if self.errored {
            return None;
        }
        let pc = self.pc;
        let rest = vstd::slice::slice_subrange(self.code, pc, self.code.len());
        proof {
            assert(rest@ =~= self.code_spec().skip(pc as int));
        }
        match Op::scan(rest) {
            Ok(None) => None,
            Ok(Some(op)) => {
                proof {
                    crate::op::lemma_op_bytes_shape(op);
                    assert(op_bytes(op).len() <= rest@.len());
                }
                self.pc = pc + op.size_bytes();
                Some(Ok((pc, op)))
            },
            Err(err) => {
                self.errored = true;
                Some(Err(err))
            },
        }
    }
}

} // verus!
