//! How a raw frame index, derived from the sensor angle, is mapped to the
//! frame actually shown, and the names by which the configuration picks
//! that mapping.
use vstd::prelude::*;

verus! {

/// The frame-index mappings that a configuration can name.
#[derive(Clone, Copy, Debug, PartialEq, Eq, Structural)]
pub enum IndexTransform {
    /// The frame index is used as it is (configuration names `"identity"` and `""`).
    Identity,
    /// `total - index - total / 4` (configuration name `"reverse_quarter"`): the
    /// sequence runs backwards, shifted by a quarter turn.
    ReverseQuarter,
}

/// `t / 4` rounded toward zero, as Rust's integer division does.
pub open spec fn quarter_toward_zero(t: int) -> int {
    if t >= 0 {
        t / 4
    } else {
        -((-t) / 4)
    }
}

/// What `transform` maps `index` to, for a sequence of `total` frames.
pub open spec fn transformed(transform: IndexTransform, index: int, total: int) -> int {
    match transform {
        IndexTransform::Identity => index,
        IndexTransform::ReverseQuarter => total - index - quarter_toward_zero(total),
    }
}

/// The configuration names that `resolve_index_transform` accepts.
pub open spec fn is_transform_name(name: Seq<char>) -> bool {
    name == "reverse_quarter"@ || name == "identity"@ || name == ""@
}

/// The mapping that a configuration name stands for.
pub open spec fn transform_named(name: Seq<char>) -> IndexTransform {
    if name == "reverse_quarter"@ {
        IndexTransform::ReverseQuarter
    } else {
        IndexTransform::Identity
    }
}

impl IndexTransform {
    /// Applies the mapping to `index` in a sequence of `total` frames.
    pub fn apply(&self, index: isize, total: isize) -> (r: isize)
        requires
            isize::MIN <= transformed(*self, index as int, total as int) <= isize::MAX,
        ensures
            r == transformed(*self, index as int, total as int),
    {
        match self {
            IndexTransform::Identity => index,
            IndexTransform::ReverseQuarter => {
                let q = total / 4;
                assert(q == quarter_toward_zero(total as int));
                total - q - index
            },
        }
    }
}

/// The identity mapping leaves every index as it is; the reverse-quarter
/// mapping runs the sequence backwards: an index and its image always add
/// up to `total - total / 4` (integer division), so one step forward in the
/// index is one step back in the frame shown.
pub proof fn lemma_transforms(index: int, total: int)
    requires
        total >= 0,
    ensures
        transformed(IndexTransform::Identity, index, total) == index,
        index + transformed(IndexTransform::ReverseQuarter, index, total) == total - total / 4,
        transformed(IndexTransform::ReverseQuarter, index + 1, total) == transformed(
            IndexTransform::ReverseQuarter,
            index,
            total,
        ) - 1,
{
}

/// Whether two strings hold the same characters.
pub fn same_text(a: &str, b: &str) -> (r: bool)
    ensures
        r == (a@ == b@),
{
    let n = a.unicode_len();
    if n != b.unicode_len() {
        return false;
    }
    let mut i: usize = 0;
    while i < n
        invariant
            n == a@.len(),
            n == b@.len(),
            i <= n,
            forall|j: int| 0 <= j < i ==> a@[j] == b@[j],
        decreases n - i,
    {
        if a.get_char(i) != b.get_char(i) {
            return false;
        }
        i = i + 1;
    }
    assert(a@ =~= b@);
    true
}

/// Resolves a configuration name to its index mapping: `"reverse_quarter"`
/// runs the sequence backwards from a quarter turn, `"identity"` and the
/// empty name leave indices unchanged. Any other name is a configuration
/// error, which callers report before calling.
pub fn resolve_index_transform(name: &str) -> (r: IndexTransform)
    requires
        is_transform_name(name@),
    ensures
        r == transform_named(name@),
{
    if same_text(name, "reverse_quarter") {
        IndexTransform::ReverseQuarter
    } else {
        IndexTransform::Identity
    }
}

/// The configuration's default index mapping name.
pub fn default_index_transform() -> (r: String)
    ensures
        r@ == "identity"@,
{
    String::from_str("identity")
}

/// The configuration's default folder of diamond images.
pub fn default_diamond_path() -> (r: String)
    ensures
        r@ == "./sequences/diamond"@,
{
    String::from_str("./sequences/diamond")
}

} // verus!
