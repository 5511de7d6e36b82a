//! Integer helpers of the beacon chain: byte conversions, integer square
//! root, slot and epoch arithmetic and signing domains.

use vstd::prelude::*;
use crate::bytes::{le_bytes, le_value, pow256, lemma_pow256_pos, lemma_le_bytes_len, lemma_le_bytes_index, lemma_pow256_8, lemma_le_value_bound, lemma_pow256_mono, lemma_le_value_append, lemma_le_value_of_bytes};
use crate::hash::H256;

verus! {

/// A fork version.
pub type Version = [u8; 4];

/// Convert an integer to a hash: its eight little-endian bytes followed by zeros.
pub fn to_bytes(v: u64) -> (r: H256)
    ensures
        r@ == le_bytes(v as nat, 32),
{
    let mut ret: H256 = [0u8; 32];
    let mut x: u64 = v;
    let mut i: usize = 0;
    proof {
        assert(pow256(0) == 1);
        assert(v as nat / 1 == v as nat);
    }
    while i < 32
        invariant
            i <= 32,
            x as nat == v as nat / pow256(i as nat),
            forall|j: int| 0 <= j < i ==> ret@[j] == ((v as nat / pow256(j as nat)) % 256) as u8,
        decreases 32 - i,
    {
        ret[i] = (x % 256) as u8;
        proof {
            lemma_pow256_pos(i as nat);
            vstd::arithmetic::div_mod::lemma_div_denominator(v as int, pow256(i as nat) as int, 256);
            assert(pow256((i + 1) as nat) == pow256(i as nat) * 256);
        }
        x = x / 256;
        i = i + 1;
    }
    proof {
        lemma_le_bytes_len(v as nat, 32);
        assert forall|j: int| 0 <= j < 32 implies ret@[j] == le_bytes(v as nat, 32)[j] by {
            lemma_le_bytes_index(v as nat, 32, j as nat);
        }
        assert(ret@ =~= le_bytes(v as nat, 32));
    }
    ret
}

/// Convert eight little-endian bytes to an integer.
pub fn to_uint(v: &[u8]) -> (r: u64)
    requires
        v@.len() == 8,
    ensures
        r as nat == le_value(v@),
{
    let mut acc: u64 = 0;
    let mut i: usize = 8;
    proof {
        assert(v@.subrange(8, 8) =~= Seq::<u8>::empty());
        lemma_pow256_8();
    }
    while i > 0
        invariant
            i <= 8,
            v@.len() == 8,
            acc as nat == le_value(v@.subrange(i as int, 8)),
            pow256(8) == 0x1_0000_0000_0000_0000,
        decreases i,
    {
        i = i - 1;
        proof {
            let rest = v@.subrange(i as int + 1, 8);
            assert(v@.subrange(i as int, 8).drop_first() =~= rest);
            lemma_le_value_bound(rest);
            lemma_pow256_mono(rest.len(), 7);
            assert(pow256(8) == 256 * pow256(7));
        }
        acc = acc * 256 + v[i] as u64;
    }
    proof {
        assert(v@.subrange(0, 8) =~= v@);
    }
    acc
}

/// Convert a machine word's worth of little-endian bytes to a machine word.
pub fn to_usize(v: &[u8]) -> (r: usize)
    requires
        v@.len() == vstd::layout::size_of::<usize>(),
    ensures
        r as nat == le_value(v@),
{
    let n = v.len();
    proof {
        broadcast use vstd::layout::layout_of_primitives;
        lemma_pow256_8();
        assert(n == 4 || n == 8);
        assert(usize::MAX as nat + 1 == pow256(n as nat));
        assert(v@.subrange(n as int, n as int) =~= Seq::<u8>::empty());
    }
    let mut acc: usize = 0;
    let mut i: usize = n;
    while i > 0
        invariant
            i <= n,
            v@.len() == n,
            usize::MAX as nat + 1 == pow256(n as nat),
            acc as nat == le_value(v@.subrange(i as int, n as int)),
        decreases i,
    {
        i = i - 1;
        proof {
            let rest = v@.subrange(i as int + 1, n as int);
            assert(v@.subrange(i as int, n as int).drop_first() =~= rest);
            lemma_le_value_bound(rest);
            lemma_pow256_mono(rest.len(), (n - 1) as nat);
            assert(pow256(n as nat) == 256 * pow256((n - 1) as nat));
            assert(acc as nat <= pow256((n - 1) as nat) - 1);
            assert(acc * 256 + 255 <= 256 * pow256((n - 1) as nat) - 1) by (nonlinear_arith)
                requires
                    acc as nat <= pow256((n - 1) as nat) - 1,
            ;
        }
        acc = acc * 256 + v[i] as usize;
    }
    proof {
        assert(v@.subrange(0, n as int) =~= v@);
    }
    acc
}

/// The signing domain of a domain type under a fork version: the low four
/// little-endian bytes of `domain_type`, then the fork version, read as one
/// little-endian integer.
pub fn bls_domain(domain_type: u64, fork_version: Version) -> (r: u64)
    ensures
        r as nat == le_value(le_bytes(domain_type as nat, 4) + fork_version@),
{
    let low: u64 = domain_type % 0x1_0000_0000;
    let high: u64 = fork_version[0] as u64 + 256 * (fork_version[1] as u64
        + 256 * (fork_version[2] as u64 + 256 * fork_version[3] as u64));
    proof {
        lemma_pow256_8();
        lemma_le_value_append(le_bytes(domain_type as nat, 4), fork_version@);
        lemma_le_bytes_len(domain_type as nat, 4);
        lemma_le_value_of_bytes(domain_type as nat, 4);
        let f = fork_version@;
        assert(f.drop_first().drop_first().drop_first().drop_first().len() == 0);
        assert(le_value(f) == high) by {
            reveal_with_fuel(le_value, 5);
        }
    }
    low + high * 0x1_0000_0000
}

/// The epoch that contains `slot`.
pub fn epoch_of_slot(slot: u64, slots_per_epoch: u64) -> (r: u64)
    requires
        slots_per_epoch > 0,
    ensures
        r == slot / slots_per_epoch,
{
    slot / slots_per_epoch
}

/// The first slot of `epoch`.
pub fn start_slot_of_epoch(epoch: u64, slots_per_epoch: u64) -> (r: u64)
    requires
        epoch * slots_per_epoch <= u64::MAX,
    ensures
        r == epoch * slots_per_epoch,
{
    epoch * slots_per_epoch
}

/// The epoch at which an activation or exit initiated in `epoch` takes effect.
pub fn activation_exit_epoch(epoch: u64, activation_exit_delay: u64) -> (r: u64)
    requires
        epoch + 1 + activation_exit_delay <= u64::MAX,
    ensures
        r == epoch + 1 + activation_exit_delay,
{
    epoch + 1 + activation_exit_delay
}

} // verus!
