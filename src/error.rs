use vstd::prelude::*;

verus! {

/// What went wrong, independent of where.
#[derive(Clone, Copy, Debug, PartialEq, Eq, Structural)]
pub enum ErrorKind {
    UnexpectedEnd,
    InvalidMagic,
    UnsupportedVersion,
    BadPoolIndex,
    PoolKindMismatch,
    InvalidDescriptor,
    InvalidName,
    InvalidFlags,
    UnrecognizedDiscriminant,
    LengthMismatch,
    UnrecognizedOpcode,
    BadOperand,
    ModifiedUtf8Decode,
}

/// Where something went wrong: one frame of the context stack.
#[derive(Clone, Copy, Debug, PartialEq, Eq, Structural)]
pub enum Frame {
    /// The constant pool entry at this index.
    PoolEntry(u16),
    /// Field number i of the class.
    Field(u16),
    /// Method number i of the class.
    Method(u16),
    /// Attribute number i of an attribute list.
    Attribute(u16),
    /// Entry number i of a table inside an attribute.
    Entry(u16),
    /// Element number i of an annotation or of an element array.
    Element(u16),
    /// The instruction at this code offset.
    Instruction(u32),
    /// The decoded instructions of a Code attribute.
    Bytecode,
    /// The class header or its this/super references.
    Header,
}

/// A fatal parse error: a kind plus the context frames, innermost first.
#[derive(Debug)]
pub struct ParseError {
    pub kind: ErrorKind,
    pub context: Vec<Frame>,
}

impl ParseError {
    pub fn new(kind: ErrorKind) -> (r: ParseError)
        ensures
            r.kind == kind,
            r.context@ == Seq::<Frame>::empty(),
    {
        ParseError { kind, context: Vec::new() }
    }

    /// Adds the caller's context as the next outer frame.
    pub fn wrap(self, frame: Frame) -> (r: ParseError)
        ensures
            r.kind == self.kind,
            r.context@ == self.context@.push(frame),
    {
        let mut context = self.context;
        context.push(frame);
        ParseError { kind: self.kind, context }
    }

    /// The outermost frame, the one that names the highest-level item.
    pub fn outermost(&self) -> (r: Option<Frame>)
        ensures
            self.context@.len() == 0 ==> r is None,
            self.context@.len() > 0 ==> r == Some(self.context@.last()),
    {
        let n = self.context.len();
        if n == 0 {
            None
        } else {
            Some(self.context[n - 1])
        }
    }
}

/// The error of `r` carries `kind`.
pub open spec fn fails_with<T>(r: Result<T, ParseError>, kind: ErrorKind) -> bool {
    r is Err && r->Err_0.kind == kind
}

} // verus!

verus! {

/// Wraps the error of `r`, if any, in the caller's context frame.
pub fn in_context<T>(r: Result<T, ParseError>, frame: Frame) -> (out: Result<T, ParseError>)
    ensures
        out is Ok <==> r is Ok,
        out is Ok ==> out->Ok_0 == r->Ok_0,
        out is Err ==> out->Err_0.kind == r->Err_0.kind,
        out is Err ==> out->Err_0.context@ == r->Err_0.context@.push(frame),
{
    match r {
        Ok(v) => Ok(v),
        Err(e) => Err(e.wrap(frame)),
    }
}

} // verus!
