//! What the storage manager reads from the target's layout oracle: the stack
//! size of a value and whether it is primitive (fits a single register).
use vstd::prelude::*;

verus! {

/// The layout of one field of a composite, reduced to what the manager needs:
/// which register family a primitive belongs to, and a byte size otherwise.
#[derive(Copy, Clone, Debug, PartialEq, Eq, Structural)]
pub enum FieldLayout {
    /// A signed 64-bit integer.
    I64,
    /// An unsigned 64-bit integer.
    U64,
    /// A 64-bit float.
    F64,
    /// Any non-primitive field (a nested struct, tag union, list or string),
    /// carrying the stack size the layout oracle reports for it.
    Opaque(u32),
}

impl FieldLayout {
    /// The number of bytes this field occupies on the stack.
    pub open spec fn spec_stack_size(self) -> int {
        match self {
            FieldLayout::Opaque(n) => n as int,
            _ => 8,
        }
    }

    /// Whether this field fits in a single register.
    pub open spec fn spec_is_primitive(self) -> bool {
        !(self is Opaque)
    }

    /// The number of bytes this field occupies on the stack.
    pub fn stack_size(&self) -> (n: u32)
        ensures
            n as int == self.spec_stack_size(),
    {
        match self {
            FieldLayout::Opaque(n) => *n,
            _ => 8,
        }
    }

    /// Whether this field fits in a single register.
    pub fn is_primitive(&self) -> (b: bool)
        ensures
            b == self.spec_is_primitive(),
    {
        !matches!(self, FieldLayout::Opaque(_))
    }
}

/// Total stack size of the first `k` fields of `fs`, in bytes.
pub open spec fn fields_size(fs: Seq<FieldLayout>, k: int) -> int
    decreases k,
{
    if k <= 0 {
        0
    } else {
        fields_size(fs, k - 1) + fs[k - 1].spec_stack_size()
    }
}

/// Prefix sums of field sizes are non-negative and monotone.
pub proof fn lemma_fields_size_monotone(fs: Seq<FieldLayout>, j: int, k: int)
    requires
        0 <= j <= k,
    ensures
        0 <= fields_size(fs, j) <= fields_size(fs, k),
    decreases k,
{
    if k > 0 {
        if j <= k - 1 {
            lemma_fields_size_monotone(fs, j, k - 1);
        } else {
            lemma_fields_size_monotone(fs, k - 1, k - 1);
        }
    }
}

/// The layout of a value to be placed on the stack.
#[derive(Clone, Debug)]
pub enum Layout {
    /// A signed 64-bit integer.
    I64,
    /// An unsigned 64-bit integer.
    U64,
    /// A 64-bit float.
    F64,
    /// A struct with the given field layouts, laid out back to back.
    Struct(Vec<FieldLayout>),
    /// Any other value (a tag union, list or string), carrying the stack size
    /// the layout oracle reports for it.
    Opaque(u32),
}

impl Layout {
    /// The number of bytes this value occupies on the stack.
    pub open spec fn spec_stack_size(self) -> int {
        match self {
            Layout::Struct(fs) => fields_size(fs@, fs@.len() as int),
            Layout::Opaque(n) => n as int,
            _ => 8,
        }
    }

    /// A layout the manager can work with: its total size fits the signed
    /// 32-bit offsets of the stack frame.
    pub open spec fn wf(self) -> bool {
        self.spec_stack_size() <= i32::MAX
    }

    /// The field layout describing a single-register value, if this layout is
    /// one.
    pub open spec fn spec_as_primitive(self) -> Option<FieldLayout> {
        match self {
            Layout::I64 => Some(FieldLayout::I64),
            Layout::U64 => Some(FieldLayout::U64),
            Layout::F64 => Some(FieldLayout::F64),
            _ => None,
        }
    }

    /// The number of bytes this value occupies on the stack.
    pub fn stack_size(&self) -> (n: u32)
        requires
            self.wf(),
        ensures
            n as int == self.spec_stack_size(),
    {
        match self {
            Layout::Struct(fs) => {
                let mut total: u64 = 0;
                let mut i: usize = 0;
                proof {
                    lemma_fields_size_monotone(fs@, 0, fs@.len() as int);
                }
                while i < fs.len()
                    invariant
                        0 <= i <= fs@.len(),
                        total as int == fields_size(fs@, i as int),
                        fields_size(fs@, fs@.len() as int) <= i32::MAX,
                    decreases fs@.len() - i,
                {
                    proof {
                        lemma_fields_size_monotone(fs@, i + 1, fs@.len() as int);
                    }
                    total = total + fs[i].stack_size() as u64;
                    i = i + 1;
                }
                total as u32
            },
            Layout::Opaque(n) => *n,
            _ => 8,
        }
    }

    /// The field layout describing a single-register value, if this layout is
    /// one.
    pub fn as_primitive(&self) -> (r: Option<FieldLayout>)
        ensures
            r == self.spec_as_primitive(),
    {
        match self {
            Layout::I64 => Some(FieldLayout::I64),
            Layout::U64 => Some(FieldLayout::U64),
            Layout::F64 => Some(FieldLayout::F64),
            _ => None,
        }
    }
}

} // verus!
