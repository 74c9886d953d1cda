//! Lengths of the terminal wire, derived from class parameters.

use vstd::prelude::*;
use vstd::arithmetic::power2::{lemma_pow2_unfold, pow2};

verus! {

/// Bytes of a hash.
pub const HASH_BYTES: usize = 32;

/// Bytes of a field element.
pub const F128_BYTES: usize = 16;

/// Bytes of an extension field element.
pub const F256_BYTES: usize = 32;

/// Bytes before the class-shaped part of a terminal.
pub const PREFIX_BYTES: usize = 42;

/// Why a terminal cannot be framed.
#[derive(Clone, Copy, Debug, PartialEq, Eq, Structural)]
pub enum HistoryStepError {
    WireEncoding,
    WireVersion,
    InvalidClass,
    WireLength { expected: usize, actual: usize },
    Rejected,
}

/// A sum that fits.
pub fn add(left: usize, right: usize) -> (r: Result<usize, HistoryStepError>)
    ensures
        match r {
            Ok(v) => v == left + right,
            Err(e) => left + right > usize::MAX && e == HistoryStepError::WireEncoding,
        },
{
    match left.checked_add(right) {
        Some(v) => Ok(v),
        None => Err(HistoryStepError::WireEncoding),
    }
}

/// A product that fits.
pub fn mul(left: usize, right: usize) -> (r: Result<usize, HistoryStepError>)
    ensures
        match r {
            Ok(v) => v == left * right,
            Err(e) => left * right > usize::MAX && e == HistoryStepError::WireEncoding,
        },
{
    match left.checked_mul(right) {
        Some(v) => Ok(v),
        None => Err(HistoryStepError::WireEncoding),
    }
}

/// A power of two that fits.
pub fn power_of_two(k: usize) -> (r: Result<usize, HistoryStepError>)
    ensures
        match r {
            Ok(v) => v == pow2(k as nat),
            Err(e) => pow2(k as nat) > usize::MAX && e == HistoryStepError::WireEncoding,
        },
{
    let mut v: usize = 1;
    let mut i: usize = 0;
    proof {
        vstd::arithmetic::power2::lemma2_to64();
    }
    while i < k
        invariant
            i <= k,
            v == pow2(i as nat),
        decreases k - i,
    {
        proof {
            lemma_pow2_unfold((i + 1) as nat);
            crate::bits::lemma_pow2_bound((i + 1) as nat, k as nat);
        }
        if v > usize::MAX / 2 {
            return Err(HistoryStepError::WireEncoding);
        }
        v = v * 2;
        i += 1;
    }
    Ok(v)
}

/// Parameters of the commitment scheme of a class, with its folding schedule.
#[derive(Debug)]
pub struct PcsParams {
    pub m: usize,
    pub log_packing: usize,
    pub log_batch_size: usize,
    pub log_inv_rate: usize,
    /// How many variables each folding round removes.
    pub arities: Vec<usize>,
    /// Folding rounds that are committed to.
    pub round_commitments: usize,
    /// Codeword entries sent in the clear.
    pub plaintext_tail: usize,
    pub queries: usize,
}

impl PcsParams {
    pub open spec fn log_msg_len(&self) -> int {
        self.m - self.log_packing
    }

    pub open spec fn log_dim(&self) -> int {
        self.log_msg_len() - self.log_batch_size
    }

    pub open spec fn k_code(&self) -> int {
        self.log_dim() + self.log_inv_rate
    }

    /// Variables removed by the first `n` rounds.
    pub open spec fn consumed(&self, n: nat) -> nat
        decreases n,
    {
        if n == 0 {
            0
        } else {
            self.consumed((n - 1) as nat) + self.arities@[n - 1] as nat
        }
    }

    /// The first folding round removes no more variables than there are.
    pub open spec fn first_fold_fits(&self) -> bool {
        self.arities@.len() > 0 && self.log_msg_len() >= 0 && self.log_dim() >= 0
            ==> self.arities@[0] <= self.k_code()
    }

    /// A wire shape can be derived.
    pub open spec fn derivable(&self) -> bool {
        &&& self.log_msg_len() >= 0
        &&& self.log_dim() >= 0
        &&& self.k_code() <= usize::MAX
        &&& pow2(self.k_code() as nat) <= usize::MAX
        &&& pow2(self.log_batch_size as nat) <= usize::MAX
        &&& pow2(self.log_inv_rate as nat) <= usize::MAX
        &&& self.round_commitments > 0 ==> self.round_commitments < self.arities@.len()
        &&& self.round_commitments > 0 ==> self.consumed((self.round_commitments + 1) as nat)
            <= self.k_code()
    }
}

/// Lengths in an opening proof.
#[derive(Debug)]
pub struct BaseFoldWireShape {
    pub round_messages: usize,
    pub round_commitments: usize,
    pub final_codeword: usize,
    pub plaintext_tail: usize,
    pub queries: usize,
    pub initial_leaf: usize,
    pub initial_path: usize,
    pub post_row_batch_leaf: usize,
    pub post_row_batch_path: usize,
    pub epoch_shapes: Vec<(usize, usize)>,
}

/// Leaf and path lengths of committed round `i`.
pub open spec fn epoch_of(p: &PcsParams, i: int) -> (nat, nat) {
    (
        pow2(p.arities@[i + 1] as nat),
        (p.k_code() - p.consumed((i + 2) as nat)) as nat,
    )
}

/// The wire shape of class parameters.
pub open spec fn shape_of(p: &PcsParams, s: &BaseFoldWireShape) -> bool {
    &&& s.round_messages == p.log_msg_len()
    &&& s.round_commitments == p.round_commitments
    &&& s.final_codeword == pow2(p.log_inv_rate as nat)
    &&& s.plaintext_tail == p.plaintext_tail
    &&& s.queries == p.queries
    &&& s.initial_leaf == pow2(p.log_batch_size as nat)
    &&& s.initial_path == p.k_code()
    &&& s.post_row_batch_leaf == if p.arities@.len() == 0 {
        0
    } else {
        pow2(p.arities@[0] as nat)
    }
    &&& s.post_row_batch_path == if p.arities@.len() == 0 {
        0
    } else {
        p.k_code() - p.arities@[0]
    }
    &&& s.epoch_shapes@.len() == p.round_commitments
    &&& forall|i: int|
        0 <= i < p.round_commitments ==> (#[trigger] s.epoch_shapes@[i]).0 == epoch_of(p, i).0
            && s.epoch_shapes@[i].1 == epoch_of(p, i).1
}

proof fn lemma_consumed_grows(p: &PcsParams, i: nat, j: nat)
    requires
        i <= j,
    ensures
        p.consumed(i) <= p.consumed(j),
    decreases j,
{
    if i < j {
        lemma_consumed_grows(p, i, (j - 1) as nat);
    }
}

impl BaseFoldWireShape {
    /// The wire shape of class parameters.
    pub fn derive(params: &PcsParams) -> (r: Result<BaseFoldWireShape, HistoryStepError>)
        requires
            params.first_fold_fits(),
        ensures
            match r {
                Ok(s) => params.derivable() && shape_of(params, &s),
                Err(e) => !params.derivable() && e == HistoryStepError::WireEncoding,
            },
    {
        if params.m < params.log_packing {
            return Err(HistoryStepError::WireEncoding);
        }
        let log_msg_len: usize = params.m - params.log_packing;
        if log_msg_len < params.log_batch_size {
            return Err(HistoryStepError::WireEncoding);
        }
        let log_dim: usize = log_msg_len - params.log_batch_size;
        let k_code: usize = match log_dim.checked_add(params.log_inv_rate) {
            Some(v) => v,
            None => {
                return Err(HistoryStepError::WireEncoding);
            },
        };
        if power_of_two(k_code).is_err() {
            return Err(HistoryStepError::WireEncoding);
        }
        let initial_leaf: usize = match power_of_two(params.log_batch_size) {
            Ok(v) => v,
            Err(e) => {
                return Err(e);
            },
        };
        let final_codeword: usize = match power_of_two(params.log_inv_rate) {
            Ok(v) => v,
            Err(e) => {
                return Err(e);
            },
        };
        let mut post_row_batch_leaf: usize = 0;
        let mut post_row_batch_path: usize = 0;
        let mut consumed: usize = 0;
        if params.arities.len() > 0 {
            let first: usize = params.arities[0];
            proof {
                crate::bits::lemma_pow2_bound(first as nat, k_code as nat);
            }
            post_row_batch_leaf = match power_of_two(first) {
                Ok(v) => v,
                Err(e) => {
                    return Err(e);
                },
            };
            post_row_batch_path = k_code - first;
            consumed = first;
            proof {
                reveal_with_fuel(PcsParams::consumed, 2);
            }
        }
        let mut epoch_shapes: Vec<(usize, usize)> = Vec::new();
        let mut index: usize = 0;
        while index < params.round_commitments
            invariant
                index <= params.round_commitments,
                params.log_msg_len() >= 0,
                params.log_dim() >= 0,
                k_code == params.k_code(),
                pow2(k_code as nat) <= usize::MAX,
                epoch_shapes@.len() == index,
                params.arities@.len() > 0 ==> consumed == params.consumed((index + 1) as nat),
                index > 0 ==> params.arities@.len() > index && consumed <= k_code,
                forall|i: int|
                    0 <= i < index ==> (#[trigger] epoch_shapes@[i]).0 == epoch_of(params, i).0
                        && epoch_shapes@[i].1 == epoch_of(params, i).1,
            decreases params.round_commitments - index,
        {
            if params.arities.len() < 2 || index >= params.arities.len() - 1 {
                return Err(HistoryStepError::WireEncoding);
            }
            let arity: usize = params.arities[index + 1];
            proof {
                assert(params.consumed((index + 2) as nat) == params.consumed(
                    (index + 1) as nat,
                ) + arity);
                lemma_consumed_grows(
                    params,
                    (index + 2) as nat,
                    (params.round_commitments + 1) as nat,
                );
            }
            consumed = match consumed.checked_add(arity) {
                Some(v) => v,
                None => {
                    return Err(HistoryStepError::WireEncoding);
                },
            };
            if consumed > k_code {
                return Err(HistoryStepError::WireEncoding);
            }
            proof {
                crate::bits::lemma_pow2_bound(arity as nat, k_code as nat);
            }
            let leaf: usize = match power_of_two(arity) {
                Ok(v) => v,
                Err(e) => {
                    return Err(e);
                },
            };
            epoch_shapes.push((leaf, k_code - consumed));
            index += 1;
        }
        Ok(
            BaseFoldWireShape {
                round_messages: log_msg_len,
                round_commitments: params.round_commitments,
                final_codeword,
                plaintext_tail: params.plaintext_tail,
                queries: params.queries,
                initial_leaf,
                initial_path: k_code,
                post_row_batch_leaf,
                post_row_batch_path,
                epoch_shapes,
            },
        )
    }

    /// Bytes of the first `n` committed rounds of a query.
    pub open spec fn epochs_len(&self, n: nat) -> nat
        decreases n,
    {
        if n == 0 {
            0
        } else {
            self.epochs_len((n - 1) as nat) + self.epoch_shapes@[n - 1].0 as nat * 32
                + self.epoch_shapes@[n - 1].1 as nat * 32
        }
    }

    /// Bytes of a query before its committed rounds.
    pub open spec fn query_head_len(&self) -> nat {
        8 + self.initial_leaf as nat * 16 + self.initial_path as nat * 32
            + self.post_row_batch_leaf as nat * 32 + self.post_row_batch_path as nat * 32
    }

    /// Bytes of a query.
    pub open spec fn query_len(&self) -> nat {
        self.query_head_len() + self.epochs_len(self.epoch_shapes@.len())
    }

    /// Bytes of an opening proof before its queries.
    pub open spec fn head_len(&self) -> nat {
        self.round_messages as nat * 64 + 32 + self.round_commitments as nat * 32 + 64
            + self.final_codeword as nat * 32 + self.plaintext_tail as nat * 32 + 8
    }

    /// Bytes of an opening proof.
    pub open spec fn total_len(&self) -> nat {
        self.head_len() + self.queries as nat * self.query_len()
    }

    pub proof fn lemma_epochs_grow(&self, i: nat, j: nat)
        requires
            i <= j,
        ensures
            self.epochs_len(i) <= self.epochs_len(j),
        decreases j,
    {
        if i < j {
            self.lemma_epochs_grow(i, (j - 1) as nat);
        }
    }

    /// Bytes of a query.
    pub fn query_encoded_len(&self) -> (r: Result<usize, HistoryStepError>)
        ensures
            match r {
                Ok(v) => v == self.query_len(),
                Err(e) => self.query_len() > usize::MAX && e == HistoryStepError::WireEncoding,
            },
    {
        let mut len: usize = 8;
        let a: usize = match crate::wire_shape::mul(self.initial_leaf, F128_BYTES) {
            Ok(v) => v,
            Err(e) => {
                return Err(e);
            },
        };
        len = match crate::wire_shape::add(len, a) {
            Ok(v) => v,
            Err(e) => {
                return Err(e);
            },
        };
        let b: usize = match crate::wire_shape::mul(self.initial_path, HASH_BYTES) {
            Ok(v) => v,
            Err(e) => {
                return Err(e);
            },
        };
        len = match crate::wire_shape::add(len, b) {
            Ok(v) => v,
            Err(e) => {
                return Err(e);
            },
        };
        let c: usize = match crate::wire_shape::mul(self.post_row_batch_leaf, F256_BYTES) {
            Ok(v) => v,
            Err(e) => {
                return Err(e);
            },
        };
        len = match crate::wire_shape::add(len, c) {
            Ok(v) => v,
            Err(e) => {
                return Err(e);
            },
        };
        let d: usize = match crate::wire_shape::mul(self.post_row_batch_path, HASH_BYTES) {
            Ok(v) => v,
            Err(e) => {
                return Err(e);
            },
        };
        len = match crate::wire_shape::add(len, d) {
            Ok(v) => v,
            Err(e) => {
                return Err(e);
            },
        };
        let mut i: usize = 0;
        while i < self.epoch_shapes.len()
            invariant
                i <= self.epoch_shapes@.len(),
                len == self.query_head_len() + self.epochs_len(i as nat),
            decreases self.epoch_shapes@.len() - i,
        {
            proof {
                self.lemma_epochs_grow((i + 1) as nat, self.epoch_shapes@.len());
            }
            let (leaf, path) = self.epoch_shapes[i];
            let x: usize = match crate::wire_shape::mul(leaf, F256_BYTES) {
                Ok(v) => v,
                Err(e) => {
                    return Err(e);
                },
            };
            len = match crate::wire_shape::add(len, x) {
                Ok(v) => v,
                Err(e) => {
                    return Err(e);
                },
            };
            let y: usize = match crate::wire_shape::mul(path, HASH_BYTES) {
                Ok(v) => v,
                Err(e) => {
                    return Err(e);
                },
            };
            len = match crate::wire_shape::add(len, y) {
                Ok(v) => v,
                Err(e) => {
                    return Err(e);
                },
            };
            i += 1;
        }
        Ok(len)
    }

    /// Bytes of an opening proof.
    pub fn encoded_len(&self) -> (r: Result<usize, HistoryStepError>)
        ensures
            match r {
                Ok(v) => v == self.total_len() && self.query_len() <= usize::MAX,
                Err(e) => (self.total_len() > usize::MAX || self.query_len() > usize::MAX) && e
                    == HistoryStepError::WireEncoding,
            },
    {
        let mut len: usize = match crate::wire_shape::mul(self.round_messages, 2 * F256_BYTES) {
            Ok(v) => v,
            Err(e) => {
                return Err(e);
            },
        };
        len = match crate::wire_shape::add(len, HASH_BYTES) {
            Ok(v) => v,
            Err(e) => {
                return Err(e);
            },
        };
        let a: usize = match crate::wire_shape::mul(self.round_commitments, HASH_BYTES) {
            Ok(v) => v,
            Err(e) => {
                return Err(e);
            },
        };
        len = match crate::wire_shape::add(len, a) {
            Ok(v) => v,
            Err(e) => {
                return Err(e);
            },
        };
        len = match crate::wire_shape::add(len, 2 * F256_BYTES) {
            Ok(v) => v,
            Err(e) => {
                return Err(e);
            },
        };
        let c: usize = match crate::wire_shape::mul(self.final_codeword, F256_BYTES) {
            Ok(v) => v,
            Err(e) => {
                return Err(e);
            },
        };
        len = match crate::wire_shape::add(len, c) {
            Ok(v) => v,
            Err(e) => {
                return Err(e);
            },
        };
        let d: usize = match crate::wire_shape::mul(self.plaintext_tail, F256_BYTES) {
            Ok(v) => v,
            Err(e) => {
                return Err(e);
            },
        };
        len = match crate::wire_shape::add(len, d) {
            Ok(v) => v,
            Err(e) => {
                return Err(e);
            },
        };
        len = match crate::wire_shape::add(len, 8) {
            Ok(v) => v,
            Err(e) => {
                return Err(e);
            },
        };
        let q: usize = match self.query_encoded_len() {
            Ok(v) => v,
            Err(e) => {
                return Err(e);
            },
        };
        let all: usize = match crate::wire_shape::mul(self.queries, q) {
            Ok(v) => v,
            Err(e) => {
                return Err(e);
            },
        };
        crate::wire_shape::add(len, all)
    }
}

} // verus!
