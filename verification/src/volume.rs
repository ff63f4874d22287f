//! What a volume server is asked and how its answers are read.
//!
//! A volume server stores a key under the address `http://`, its
//! identifier, and the path of the key. An exchange with it ends in a status
//! code or in no answer at all.

use crate::bytes::{ascii, extend, literal, to_vec};
use crate::placement::key_path;
use vstd::prelude::*;

verus! {

/// The literal `http://`.
pub open spec fn scheme() -> Seq<u8> {
    ascii("http://"@)
}

/// The address of a path on a volume.
pub open spec fn remote_of(volume: Seq<u8>, path: Seq<u8>) -> Seq<u8> {
    scheme() + volume + path
}

/// The addresses of a key on each of the given volumes, in their order.
pub open spec fn remotes(volumes: Seq<Seq<u8>>, key: Seq<u8>) -> Seq<Seq<u8>> {
    Seq::new(volumes.len(), |i: int| remote_of(volumes[i], key_path(key)))
}

/// The address of a path on a volume.
pub fn remote_url(volume: &[u8], path: &[u8]) -> (out: Vec<u8>)
    ensures
        out@ == remote_of(volume@, path@),
{
    proof {
        reveal_strlit("http://");
    }
    let mut out = to_vec(literal("http://"));
    extend(&mut out, volume);
    extend(&mut out, path);
    out
}

/// The addresses of a path on each of the given volumes, in their order.
pub fn remote_urls(volumes: &[Vec<u8>], path: &[u8]) -> (out: Vec<Vec<u8>>)
    ensures
        out@.len() == volumes@.len(),
        forall|i: int| 0 <= i < out@.len() ==> (#[trigger] out@[i])@ == remote_of(volumes@[i]@, path@),
{
    let mut out: Vec<Vec<u8>> = Vec::new();
    let mut i: usize = 0;
    while i < volumes.len()
        invariant
            i <= volumes.len(),
            out@.len() == i,
            forall|j: int| 0 <= j < i ==> (#[trigger] out@[j])@ == remote_of(volumes@[j]@, path@),
        decreases volumes.len() - i,
    {
        out.push(remote_url(volumes[i].as_slice(), path));
        i += 1;
    }
    out
}

/// Whether a volume has stored what it was sent: it answered 201 or 204.
pub fn put_acknowledged(outcome: Option<u16>) -> (r: bool)
    ensures
        r == (outcome == Some(201u16) || outcome == Some(204u16)),
{
    match outcome {
        Some(status) => status == 201 || status == 204,
        None => false,
    }
}

/// Whether a volume no longer holds what it was asked to delete: it
/// answered 204, or 404 because it never held it.
pub fn delete_acknowledged(outcome: Option<u16>) -> (r: bool)
    ensures
        r == (outcome == Some(204u16) || outcome == Some(404u16)),
{
    match outcome {
        Some(status) => status == 204 || status == 404,
        None => false,
    }
}

/// Whether a volume has handed out what it was asked for: it answered 200.
pub fn get_succeeded(outcome: Option<u16>) -> (r: bool)
    ensures
        r == (outcome == Some(200u16)),
{
    match outcome {
        Some(status) => status == 200,
        None => false,
    }
}

/// Whether a probed volume holds the key: it answered 200. Any other
/// answer, and no answer in time, count as absent.
pub fn head_present(outcome: Option<u16>) -> (r: bool)
    ensures
        r == (outcome == Some(200u16)),
{
    match outcome {
        Some(status) => status == 200,
        None => false,
    }
}

} // verus!
