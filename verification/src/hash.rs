//! The one hash function of the system: a fixed 32-bit non-cryptographic
//! digest over byte strings, seeded with zero.  Ring coordinates hash the
//! label `"{node_id}:{i}"`; key coordinates hash the key itself.

use vstd::prelude::*;
use xxhash_rust::xxh32::xxh32;

verus! {

use vstd::utf8::encode_utf8;
use vstd::string::StrSliceExecFns;

/// The 32-bit digest that seed-zero xxh32 assigns to a byte string.  The
/// digest depends on the bytes alone; its value is not modelled further.
pub uninterp spec fn xxh32_of(bytes: Seq<u8>) -> u32;

/// Relies on `xxhash_rust::xxh32::xxh32`: the digest is a pure function of
/// the input bytes and the seed, identical on every machine and in every
/// process.  All callers fix the seed at zero.
#[verifier::external_body]
fn xxh32_seed_zero(bytes: &[u8]) -> (r: u32)
    ensures
        r == xxh32_of(bytes@),
{
    xxh32(bytes, 0)
}

/// The ASCII decimal digits of `n`, most significant first.
pub open spec fn dec_bytes(n: nat) -> Seq<u8>
    decreases n,
{
    if n < 10 {
        seq![(48 + n) as u8]
    } else {
        dec_bytes(n / 10).push((48 + n % 10) as u8)
    }
}

/// Appends the decimal digits of `n` to `out`.
fn push_dec(out: &mut Vec<u8>, n: usize)
    ensures
        final(out)@ == old(out)@ + dec_bytes(n as nat),
    decreases n,
{
    if n < 10 {
        out.push(48 + n as u8);
        proof {
            assert(final(out)@ =~= old(out)@ + dec_bytes(n as nat));
        }
    } else {
        push_dec(out, n / 10);
        out.push(48 + (n % 10) as u8);
        proof {
            assert(final(out)@ =~= old(out)@ + dec_bytes(n as nat));
        }
    }
}

/// The byte string hashed to place virtual node `i` of node `id` on the
/// ring: the UTF-8 bytes of `id`, a colon, and the decimal digits of `i`.
pub open spec fn vnode_label(id: Seq<char>, i: nat) -> Seq<u8> {
    encode_utf8(id) + seq![58u8] + dec_bytes(i)
}

/// The ring coordinate of virtual node `i` of node `id`.
pub open spec fn vnode_coord(id: Seq<char>, i: nat) -> u32 {
    xxh32_of(vnode_label(id, i))
}

/// The ring coordinate a key is routed from.
pub open spec fn key_coord(key: Seq<char>) -> u32 {
    xxh32_of(encode_utf8(key))
}

fn vnode_label_bytes(id: &str, i: usize) -> (r: Vec<u8>)
    ensures
        r@ == vnode_label(id@, i as nat),
{
    let mut bytes = id.as_bytes_vec();
    bytes.push(58);
    push_dec(&mut bytes, i);
    proof {
        assert(bytes@ =~= vnode_label(id@, i as nat));
    }
    bytes
}

pub(crate) fn vnode_coord_exec(id: &str, i: usize) -> (r: u32)
    ensures
        r == vnode_coord(id@, i as nat),
{
    let bytes = vnode_label_bytes(id, i);
    xxh32_seed_zero(bytes.as_slice())
}

pub(crate) fn key_coord_exec(key: &str) -> (r: u32)
    ensures
        r == key_coord(key@),
{
    xxh32_seed_zero(key.as_bytes())
}

} // verus!
