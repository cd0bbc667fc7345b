use vstd::prelude::*;

verus! {

/// Token counts of one or more log records. A field that is `None` was never
/// observed; `Some(0)` was observed and measured as zero.
#[derive(Clone, Copy, Debug, PartialEq, Eq, Structural)]
pub struct Usage {
    pub input_tokens: Option<u32>,
    pub output_tokens: Option<u32>,
    pub cache_creation_input_tokens: Option<u32>,
    pub cache_read_input_tokens: Option<u32>,
}

/// A sum clamped to what a `u32` holds.
pub open spec fn capped_sum(a: u32, b: u32) -> u32 {
    if a + b > u32::MAX {
        u32::MAX
    } else {
        (a + b) as u32
    }
}

/// Merge of one field: present iff present on either side, the (capped) sum
/// of the present values.
pub open spec fn merge_count(a: Option<u32>, b: Option<u32>) -> Option<u32> {
    match (a, b) {
        (Some(x), Some(y)) => Some(capped_sum(x, y)),
        (Some(x), None) => Some(x),
        (None, Some(y)) => Some(y),
        (None, None) => None,
    }
}

/// The value a field contributes to a displayed total: absent counts as zero.
pub open spec fn count_or_zero(a: Option<u32>) -> nat {
    match a {
        Some(x) => x as nat,
        None => 0,
    }
}

impl Usage {
    /// The counter with every field absent.
    pub open spec fn absent() -> Usage {
        Usage {
            input_tokens: None,
            output_tokens: None,
            cache_creation_input_tokens: None,
            cache_read_input_tokens: None,
        }
    }

    pub open spec fn merged(self, other: Usage) -> Usage {
        Usage {
            input_tokens: merge_count(self.input_tokens, other.input_tokens),
            output_tokens: merge_count(self.output_tokens, other.output_tokens),
            cache_creation_input_tokens: merge_count(
                self.cache_creation_input_tokens,
                other.cache_creation_input_tokens,
            ),
            cache_read_input_tokens: merge_count(
                self.cache_read_input_tokens,
                other.cache_read_input_tokens,
            ),
        }
    }

    /// Sum of the four fields, absent ones counting as zero.
    pub open spec fn total_spec(self) -> nat {
        count_or_zero(self.input_tokens) + count_or_zero(self.output_tokens) + count_or_zero(
            self.cache_creation_input_tokens,
        ) + count_or_zero(self.cache_read_input_tokens)
    }

    /// Every field is absent or zero.
    pub open spec fn all_zero_spec(self) -> bool {
        self.total_spec() == 0
    }

    /// Merges `other` into a copy of `self`, field by field.
    pub fn merge(&self, other: &Usage) -> (r: Usage)
        ensures
            r == self.merged(*other),
    {
        Usage {
            input_tokens: merge_field(self.input_tokens, other.input_tokens),
            output_tokens: merge_field(self.output_tokens, other.output_tokens),
            cache_creation_input_tokens: merge_field(
                self.cache_creation_input_tokens,
                other.cache_creation_input_tokens,
            ),
            cache_read_input_tokens: merge_field(
                self.cache_read_input_tokens,
                other.cache_read_input_tokens,
            ),
        }
    }

    /// Sum of the four fields, absent ones counting as zero.
    pub fn total_tokens(&self) -> (r: u64)
        ensures
            r == self.total_spec(),
    {
        field_or_zero(self.input_tokens) as u64 + field_or_zero(self.output_tokens) as u64
            + field_or_zero(self.cache_creation_input_tokens) as u64 + field_or_zero(
            self.cache_read_input_tokens,
        ) as u64
    }

    /// Whether every field is absent or zero.
    pub fn is_all_zero(&self) -> (r: bool)
        ensures
            r == self.all_zero_spec(),
    {
        self.total_tokens() == 0
    }
}

impl Default for Usage {
    fn default() -> (r: Usage)
        ensures
            r == Usage::absent(),
    {
        Usage {
            input_tokens: None,
            output_tokens: None,
            cache_creation_input_tokens: None,
            cache_read_input_tokens: None,
        }
    }
}

fn merge_field(a: Option<u32>, b: Option<u32>) -> (r: Option<u32>)
    ensures
        r == merge_count(a, b),
{
    match (a, b) {
        (Some(x), Some(y)) => Some(x.saturating_add(y)),
        (Some(x), None) => Some(x),
        (None, Some(y)) => Some(y),
        (None, None) => None,
    }
}

fn field_or_zero(a: Option<u32>) -> (r: u32)
    ensures
        r == count_or_zero(a),
{
    match a {
        Some(x) => x,
        None => 0,
    }
}

/// Merging is commutative: the order of two counters does not matter.
pub proof fn lemma_merge_commutative(a: Usage, b: Usage)
    ensures
        a.merged(b) == b.merged(a),
{
}

/// Merging is associative: how three counters are grouped does not matter.
pub proof fn lemma_merge_associative(a: Usage, b: Usage, c: Usage)
    ensures
        a.merged(b).merged(c) == a.merged(b.merged(c)),
{
}

/// The counter with every field absent is an identity of merging, on either side.
pub proof fn lemma_merge_absent_identity(a: Usage)
    ensures
        a.merged(Usage::absent()) == a,
        Usage::absent().merged(a) == a,
{
}

} // verus!
