//! Where a key lives.
//!
//! Placement is rendezvous hashing: every volume gets a score for a key, the
//! MD5 of the key followed by the volume's identifier, and the key goes to
//! the volumes with the highest scores. A volume outranks another when its
//! score is higher in bytewise order; of two volumes with the same score the
//! one named first in the pool outranks the other. The rank of a volume is
//! the number of volumes that outrank it, so the placement of a key on `n`
//! volumes is the volumes of rank 0 to `n - 1`, in that order.

use crate::bytes::{
    extend, lemma_lex_irreflexive, lemma_lex_total, lemma_lex_transitive, lex_lt, literal,
    precedes, same, to_vec, views,
};
use crate::encoding::{
    base64_len, base64_url, hex, is_numeral_digit, lemma_base64_injective, lemma_base64_len,
    lemma_hex_shape, lemma_numeral_shape, push_hex_byte, push_upper_hex2, upper_hex2,
};
use crate::record::{valid_volume_id, COMMA};
use crate::trusted::{base64_url_of, md5_digest, md5_of};
use vstd::prelude::*;

verus! {

/// The score of a volume for a key.
pub open spec fn score(key: Seq<u8>, volume: Seq<u8>) -> Seq<u8> {
    md5_digest(key + volume)
}

/// The scores of the volumes of a pool for a key, in the order of the pool.
pub open spec fn scores_of(key: Seq<u8>, volumes: Seq<Seq<u8>>) -> Seq<Seq<u8>> {
    Seq::new(volumes.len(), |i: int| score(key, volumes[i]))
}

/// Whether the volume at `i` outranks the one at `j`.
pub open spec fn outranks(scores: Seq<Seq<u8>>, i: int, j: int) -> bool {
    lex_lt(scores[j], scores[i]) || (scores[i] == scores[j] && i < j)
}

/// How many of the first `upto` volumes outrank the one at `i`.
pub open spec fn beaten_by(scores: Seq<Seq<u8>>, i: int, upto: nat) -> nat
    decreases upto,
{
    if upto == 0 {
        0
    } else {
        let before = beaten_by(scores, i, (upto - 1) as nat);
        if outranks(scores, upto - 1, i) {
            before + 1
        } else {
            before
        }
    }
}

/// The rank of the volume at `i`: how many volumes outrank it.
pub open spec fn rank(scores: Seq<Seq<u8>>, i: int) -> nat {
    beaten_by(scores, i, scores.len())
}

/// The position in the pool of the volume of rank `k`.
pub open spec fn ranked(scores: Seq<Seq<u8>>, k: nat) -> int {
    choose|i: int| 0 <= i < scores.len() && rank(scores, i) == k
}

/// The four bytes from position 12 of a score, read as a big-endian number.
pub open spec fn score_tail(score: Seq<u8>) -> nat {
    (score[12] as nat) * 0x100_0000 + (score[13] as nat) * 0x1_0000 + (score[14] as nat) * 0x100
        + (score[15] as nat)
}

/// The literal `/sv`.
pub open spec fn subvolume_tag() -> Seq<u8> {
    seq![0x2fu8, 0x73u8, 0x76u8]
}

/// What is appended to a chosen volume when volumes are divided in
/// `subvolumes` parts: `/sv` and the part, which the score decides, as two
/// hexadecimal digits in capitals.
pub open spec fn subvolume_suffix(score: Seq<u8>, subvolumes: nat) -> Seq<u8> {
    subvolume_tag() + upper_hex2(score_tail(score) % subvolumes)
}

/// A chosen volume as it is recorded: the volume itself where volumes are
/// undivided, else the volume followed by its sub-volume.
pub open spec fn replica(volume: Seq<u8>, score: Seq<u8>, subvolumes: nat) -> Seq<u8> {
    if subvolumes == 1 {
        volume
    } else {
        volume + subvolume_suffix(score, subvolumes)
    }
}

/// The number of volumes a key is placed on: `replicas`, or all of the pool
/// where it is smaller.
pub open spec fn fanout(pool: nat, replicas: nat) -> nat {
    if replicas <= pool {
        replicas
    } else {
        pool
    }
}

/// The volumes chosen by the given scores: the `replicas` volumes of highest
/// score, best first, each with its sub-volume.
pub open spec fn chosen(
    scores: Seq<Seq<u8>>,
    volumes: Seq<Seq<u8>>,
    replicas: nat,
    subvolumes: nat,
) -> Seq<Seq<u8>> {
    Seq::new(
        fanout(volumes.len(), replicas),
        |k: int|
            {
                let i = ranked(scores, k as nat);
                replica(volumes[i], scores[i], subvolumes)
            },
    )
}

/// The placement of a key: the volumes chosen by their scores for the key.
pub open spec fn placement(
    key: Seq<u8>,
    volumes: Seq<Seq<u8>>,
    replicas: nat,
    subvolumes: nat,
) -> Seq<Seq<u8>> {
    chosen(scores_of(key, volumes), volumes, replicas, subvolumes)
}

/// Whether `name` is what is recorded for the volume of rank `k`, and there
/// is such a volume.
pub open spec fn holds_rank(
    scores: Seq<Seq<u8>>,
    volumes: Seq<Seq<u8>>,
    subvolumes: nat,
    k: int,
    name: Seq<u8>,
) -> bool {
    let i = ranked(scores, k as nat);
    &&& 0 <= i < volumes.len()
    &&& rank(scores, i) == k
    &&& name == replica(volumes[i], scores[i], subvolumes)
}

/// The path of a key on a volume, from the digest of the key and the base64
/// text of the key: `/`, the first byte of the digest as two hexadecimal
/// digits, `/`, the second byte likewise, `/`, the text.
pub open spec fn path_of(digest: Seq<u8>, encoded: Seq<u8>) -> Seq<u8> {
    seq![0x2fu8] + hex(seq![digest[0]]) + seq![0x2fu8] + hex(seq![digest[1]]) + seq![0x2fu8]
        + encoded
}

/// The path under which every volume stores a key.
pub open spec fn key_path(key: Seq<u8>) -> Seq<u8> {
    path_of(md5_digest(key), base64_url(key))
}

/// Whether a key is short enough for its path to be written: the base64
/// text of the key must have a length that fits the machine.
pub open spec fn key_fits(key: Seq<u8>) -> bool {
    base64_url(key).len() <= usize::MAX
}

/// Different keys have different paths.
pub proof fn lemma_key_path_injective(a: Seq<u8>, b: Seq<u8>)
    requires
        key_path(a) == key_path(b),
    ensures
        a == b,
{
    lemma_hex_shape(seq![md5_digest(a)[0]]);
    lemma_hex_shape(seq![md5_digest(a)[1]]);
    lemma_hex_shape(seq![md5_digest(b)[0]]);
    lemma_hex_shape(seq![md5_digest(b)[1]]);
    assert(key_path(a).skip(7) =~= base64_url(a));
    assert(key_path(b).skip(7) =~= base64_url(b));
    lemma_base64_injective(a, b);
}

/// Of two different volumes exactly one outranks the other, and none
/// outranks itself.
pub proof fn lemma_outranks_total(scores: Seq<Seq<u8>>, i: int, j: int)
    ensures
        i != j ==> (outranks(scores, i, j) <==> !outranks(scores, j, i)),
        !outranks(scores, i, i),
{
    lemma_lex_total(scores[i], scores[j]);
    lemma_lex_irreflexive(scores[i]);
}

/// Outranking is transitive.
pub proof fn lemma_outranks_transitive(scores: Seq<Seq<u8>>, a: int, b: int, c: int)
    requires
        outranks(scores, a, b),
        outranks(scores, b, c),
    ensures
        outranks(scores, a, c),
{
    if lex_lt(scores[b], scores[a]) && lex_lt(scores[c], scores[b]) {
        lemma_lex_transitive(scores[c], scores[b], scores[a]);
    }
}

/// A volume that outranks another has the lower rank, counted over any
/// beginning of the pool that holds it.
pub proof fn lemma_beaten_monotone(scores: Seq<Seq<u8>>, a: int, b: int, upto: nat)
    requires
        0 <= a,
        outranks(scores, a, b),
    ensures
        beaten_by(scores, a, upto) + (if a < upto {
            1nat
        } else {
            0nat
        }) <= beaten_by(scores, b, upto),
    decreases upto,
{
    if upto > 0 {
        let j = upto - 1;
        lemma_beaten_monotone(scores, a, b, j as nat);
        lemma_outranks_total(scores, a, a);
        if outranks(scores, j, a) {
            lemma_outranks_transitive(scores, j, a, b);
        }
    }
}

/// Different volumes have different ranks, and the one that outranks the
/// other has the lower.
pub proof fn lemma_rank_order(scores: Seq<Seq<u8>>, a: int, b: int)
    requires
        0 <= a < scores.len(),
        0 <= b < scores.len(),
        a != b,
    ensures
        outranks(scores, a, b) <==> rank(scores, a) < rank(scores, b),
        rank(scores, a) != rank(scores, b),
{
    lemma_outranks_total(scores, a, b);
    if outranks(scores, a, b) {
        lemma_beaten_monotone(scores, a, b, scores.len());
    } else {
        lemma_beaten_monotone(scores, b, a, scores.len());
    }
}

/// A volume of a given rank is the volume of that rank.
pub proof fn lemma_ranked_is(scores: Seq<Seq<u8>>, i: int)
    requires
        0 <= i < scores.len(),
    ensures
        ranked(scores, rank(scores, i)) == i,
{
    let k = rank(scores, i);
    let j = ranked(scores, k);
    assert(0 <= j < scores.len() && rank(scores, j) == k);
    if j != i {
        lemma_rank_order(scores, i, j);
    }
}

/// How many of the first `upto` marks are set.
pub open spec fn count_set(marks: Seq<bool>, upto: nat) -> nat
    decreases upto,
{
    if upto == 0 {
        0
    } else {
        let before = count_set(marks, (upto - 1) as nat);
        if marks[upto - 1] {
            before + 1
        } else {
            before
        }
    }
}

/// Where each of the first `upto` marks is set, `upto` marks are.
proof fn lemma_count_all(marks: Seq<bool>, upto: nat)
    requires
        upto <= marks.len(),
        forall|j: int| 0 <= j < upto ==> marks[j],
    ensures
        count_set(marks, upto) == upto,
    decreases upto,
{
    if upto > 0 {
        lemma_count_all(marks, (upto - 1) as nat);
    }
}

/// Setting a mark that was not set makes one more mark that is.
proof fn lemma_count_mark(marks: Seq<bool>, at: int, upto: nat)
    requires
        0 <= at < marks.len(),
        upto <= marks.len(),
        !marks[at],
    ensures
        count_set(marks.update(at, true), upto) == count_set(marks, upto) + (if at < upto {
            1nat
        } else {
            0nat
        }),
    decreases upto,
{
    if upto > 0 {
        lemma_count_mark(marks, at, (upto - 1) as nat);
    }
}

/// Where the marks are on the volumes that outrank the one at `i`, as many
/// marks are set as volumes outrank it.
proof fn lemma_count_beaten(scores: Seq<Seq<u8>>, marks: Seq<bool>, i: int, upto: nat)
    requires
        upto <= marks.len(),
        forall|j: int| 0 <= j < upto ==> marks[j] == outranks(scores, j, i),
    ensures
        beaten_by(scores, i, upto) == count_set(marks, upto),
    decreases upto,
{
    if upto > 0 {
        lemma_count_beaten(scores, marks, i, (upto - 1) as nat);
    }
}

/// Where the volumes of rank below `k` are marked and `best` is an unmarked
/// volume that outranks every other unmarked one, `best` has rank `k`.
proof fn lemma_best_has_rank(scores: Seq<Seq<u8>>, marks: Seq<bool>, k: nat, best: int)
    requires
        marks.len() == scores.len(),
        count_set(marks, marks.len()) == k,
        forall|j: int| 0 <= j < scores.len() ==> (marks[j] <==> rank(scores, j) < k),
        0 <= best < scores.len(),
        !marks[best],
        forall|j: int| 0 <= j < scores.len() && !marks[j] && j != best ==> outranks(scores, best, j),
    ensures
        rank(scores, best) == k,
        ranked(scores, k) == best,
        count_set(marks.update(best, true), marks.len()) == k + 1,
        forall|j: int|
            0 <= j < scores.len() ==> (marks.update(best, true)[j] <==> rank(scores, j) < k + 1),
{
    assert forall|j: int| 0 <= j < scores.len() implies marks[j] == outranks(scores, j, best) by {
        lemma_outranks_total(scores, j, best);
        if j != best {
            lemma_rank_order(scores, j, best);
        }
    }
    lemma_count_beaten(scores, marks, best, scores.len());
    lemma_ranked_is(scores, best);
    lemma_count_mark(marks, best, marks.len());
    assert forall|j: int| 0 <= j < scores.len() implies (marks.update(best, true)[j] <==> rank(
        scores,
        j,
    ) < k + 1) by {
        if j != best {
            lemma_rank_order(scores, j, best);
        }
    }
}

/// Among the first `upto` volumes, the unmarked one that outranks every
/// other unmarked one, if any is unmarked.
proof fn top_unmarked(scores: Seq<Seq<u8>>, marks: Seq<bool>, upto: nat) -> (r: Option<int>)
    requires
        upto <= scores.len(),
        marks.len() == scores.len(),
    ensures
        match r {
            Some(b) => 0 <= b < upto && !marks[b] && forall|j: int|
                0 <= j < upto && !marks[j] && j != b ==> outranks(scores, b, j),
            None => forall|j: int| 0 <= j < upto ==> marks[j],
        },
    decreases upto,
{
    if upto == 0 {
        None
    } else {
        let last = upto - 1;
        let before = top_unmarked(scores, marks, last as nat);
        if marks[last] {
            before
        } else {
            match before {
                None => Some(last),
                Some(b) => {
                    lemma_outranks_total(scores, b, last);
                    if outranks(scores, b, last) {
                        Some(b)
                    } else {
                        assert forall|j: int| 0 <= j < upto && !marks[j] && j != last implies outranks(
                            scores,
                            last,
                            j,
                        ) by {
                            if j != b {
                                lemma_outranks_transitive(scores, last, b, j);
                            }
                        }
                        Some(last)
                    }
                },
            }
        }
    }
}

/// The volumes of rank below `k`, marked; every rank below `k` is the rank
/// of a volume.
proof fn marks_below(scores: Seq<Seq<u8>>, k: nat) -> (marks: Seq<bool>)
    requires
        k <= scores.len(),
    ensures
        marks.len() == scores.len(),
        count_set(marks, marks.len()) == k,
        forall|j: int| 0 <= j < scores.len() ==> (marks[j] <==> rank(scores, j) < k),
        forall|r: nat|
            r < k ==> 0 <= #[trigger] ranked(scores, r) < scores.len() && rank(
                scores,
                ranked(scores, r),
            ) == r,
    decreases k,
{
    if k == 0 {
        let marks = Seq::new(scores.len(), |i: int| false);
        lemma_count_none(marks, marks.len());
        marks
    } else {
        let before = marks_below(scores, (k - 1) as nat);
        let top = top_unmarked(scores, before, scores.len());
        if top is None {
            lemma_count_all(before, before.len());
        }
        let best = top->Some_0;
        lemma_best_has_rank(scores, before, (k - 1) as nat, best);
        before.update(best, true)
    }
}

/// Every rank below the size of the pool is the rank of exactly one volume.
pub proof fn lemma_ranked(scores: Seq<Seq<u8>>, k: nat)
    requires
        k < scores.len(),
    ensures
        0 <= ranked(scores, k) < scores.len(),
        rank(scores, ranked(scores, k)) == k,
{
    let marks = marks_below(scores, k + 1);
    assert(0 <= ranked(scores, k) < scores.len());
}

/// The placement of a key names as many volumes as asked for, or all of the
/// pool; the names are valid identifiers, each different from the others,
/// where the volumes of the pool are.
pub proof fn lemma_placement(key: Seq<u8>, volumes: Seq<Seq<u8>>, replicas: nat, subvolumes: nat)
    requires
        subvolumes >= 1,
        forall|i: int| 0 <= i < volumes.len() ==> valid_volume_id(#[trigger] volumes[i]),
        volumes.no_duplicates(),
    ensures
        placement(key, volumes, replicas, subvolumes).len() == fanout(volumes.len(), replicas),
        forall|k: int|
            0 <= k < fanout(volumes.len(), replicas) ==> valid_volume_id(
                #[trigger] placement(key, volumes, replicas, subvolumes)[k],
            ),
        placement(key, volumes, replicas, subvolumes).no_duplicates(),
{
    let scores = scores_of(key, volumes);
    let names = placement(key, volumes, replicas, subvolumes);
    assert forall|k: int| 0 <= k < names.len() implies #[trigger] holds_rank(
        scores,
        volumes,
        subvolumes,
        k,
        names[k],
    ) by {
        lemma_ranked(scores, k as nat);
    }
    lemma_chosen_names(scores, volumes, subvolumes, names);
}

/// Adding a volume to a pool moves the first choice of a key to the new
/// volume or leaves it where it was.
pub proof fn lemma_added_volume(key: Seq<u8>, volumes: Seq<Seq<u8>>, added: Seq<u8>, subvolumes: nat)
    requires
        volumes.len() >= 1,
    ensures
        ({
            let before = placement(key, volumes, 1, subvolumes);
            let after = placement(key, volumes.push(added), 1, subvolumes);
            &&& before.len() == 1
            &&& after.len() == 1
            &&& (after[0] == before[0] || after[0] == replica(added, score(key, added), subvolumes))
        }),
{
    let grown = volumes.push(added);
    let old_scores = scores_of(key, volumes);
    let new_scores = scores_of(key, grown);
    let n = volumes.len() as int;
    lemma_ranked(old_scores, 0);
    lemma_ranked(new_scores, 0);
    let first = ranked(new_scores, 0);
    if first < n {
        assert forall|j: int| 0 <= j < n implies new_scores[j] == old_scores[j] by {
            assert(grown[j] == volumes[j]);
        }
        assert forall|j: int| 0 <= j < n implies !outranks(old_scores, j, first) by {
            if outranks(old_scores, j, first) {
                assert(outranks(new_scores, j, first));
                lemma_outranks_total(new_scores, j, first);
                lemma_rank_order(new_scores, j, first);
            }
        }
        lemma_unbeaten(old_scores, first, old_scores.len());
        lemma_ranked_is(old_scores, first);
        assert(grown[first] == volumes[first]);
    } else {
        assert(grown[first] == added);
    }
}

/// Taking a volume out of a pool leaves the first choice of a key where it
/// was, unless the volume taken out was that choice.
pub proof fn lemma_removed_volume(key: Seq<u8>, volumes: Seq<Seq<u8>>, at: int, subvolumes: nat)
    requires
        0 <= at < volumes.len(),
        ranked(scores_of(key, volumes), 0) != at,
    ensures
        placement(key, volumes.remove(at), 1, subvolumes) == placement(key, volumes, 1, subvolumes),
{
    let rest = volumes.remove(at);
    let all_scores = scores_of(key, volumes);
    let rest_scores = scores_of(key, rest);
    lemma_ranked(all_scores, 0);
    let first = ranked(all_scores, 0);
    let kept = if first < at {
        first
    } else {
        first - 1
    };
    assert forall|j: int| 0 <= j < rest.len() implies !outranks(rest_scores, j, kept) by {
        let from = if j < at {
            j
        } else {
            j + 1
        };
        assert(rest[j] == volumes[from]);
        assert(rest[kept] == volumes[first]);
        lemma_outranks_total(rest_scores, kept, kept);
        if outranks(rest_scores, j, kept) {
            assert(outranks(all_scores, from, first));
            lemma_rank_order(all_scores, from, first);
        }
    }
    lemma_unbeaten(rest_scores, kept, rest_scores.len());
    lemma_ranked_is(rest_scores, kept);
    assert(rest[kept] == volumes[first]);
    assert(placement(key, rest, 1, subvolumes) =~= placement(key, volumes, 1, subvolumes));
}

/// A volume that none of the first `upto` volumes outranks has none of them
/// before it.
proof fn lemma_unbeaten(scores: Seq<Seq<u8>>, i: int, upto: nat)
    requires
        forall|j: int| 0 <= j < upto ==> !outranks(scores, j, i),
    ensures
        beaten_by(scores, i, upto) == 0,
    decreases upto,
{
    if upto > 0 {
        lemma_unbeaten(scores, i, (upto - 1) as nat);
    }
}

/// Two chosen volumes with the same recorded name are the same volume.
pub proof fn lemma_replica_injective(
    v1: Seq<u8>,
    s1: Seq<u8>,
    v2: Seq<u8>,
    s2: Seq<u8>,
    subvolumes: nat,
)
    requires
        subvolumes >= 1,
        replica(v1, s1, subvolumes) == replica(v2, s2, subvolumes),
    ensures
        v1 == v2,
{
    if subvolumes > 1 {
        let t1 = subvolume_suffix(s1, subvolumes);
        let t2 = subvolume_suffix(s2, subvolumes);
        lemma_suffix_shape(s1, subvolumes);
        lemma_suffix_shape(s2, subvolumes);
        let r = v1 + t1;
        assert(r == v2 + t2);
        if v1.len() < v2.len() {
            assert(r[v2.len() as int] == t2[0]);
            assert(r[v2.len() as int] == t1[v2.len() - v1.len()]);
        } else if v2.len() < v1.len() {
            assert(r[v1.len() as int] == t1[0]);
            assert(r[v1.len() as int] == t2[v1.len() - v2.len()]);
        }
        assert(v1 =~= r.take(v1.len() as int));
        assert(v2 =~= r.take(v2.len() as int));
    }
}

/// The names recorded for the chosen volumes are valid identifiers, each
/// different from the others, where the volumes of the pool are.
pub proof fn lemma_chosen_names(
    scores: Seq<Seq<u8>>,
    volumes: Seq<Seq<u8>>,
    subvolumes: nat,
    names: Seq<Seq<u8>>,
)
    requires
        subvolumes >= 1,
        scores.len() == volumes.len(),
        forall|i: int| 0 <= i < volumes.len() ==> valid_volume_id(#[trigger] volumes[i]),
        volumes.no_duplicates(),
        forall|k: int|
            0 <= k < names.len() ==> #[trigger] holds_rank(scores, volumes, subvolumes, k, names[k]),
    ensures
        forall|k: int| 0 <= k < names.len() ==> valid_volume_id(#[trigger] names[k]),
        names.no_duplicates(),
{
    assert forall|k: int| 0 <= k < names.len() implies valid_volume_id(#[trigger] names[k]) by {
        assert(holds_rank(scores, volumes, subvolumes, k, names[k]));
        let i = ranked(scores, k as nat);
        let v = volumes[i];
        assert(valid_volume_id(v));
        if subvolumes > 1 {
            let t = subvolume_suffix(scores[i], subvolumes);
            lemma_suffix_shape(scores[i], subvolumes);
            let name = v + t;
            if name.contains(COMMA) {
                let at = choose|at: int| 0 <= at < name.len() && name[at] == COMMA;
                if at < v.len() {
                    assert(v[at] == COMMA);
                } else {
                    assert(t[at - v.len()] == COMMA);
                }
            }
        }
    }
    assert forall|a: int, b: int| 0 <= a < names.len() && 0 <= b < names.len() && a != b implies names[a]
        != names[b] by {
        assert(holds_rank(scores, volumes, subvolumes, a, names[a]));
        assert(holds_rank(scores, volumes, subvolumes, b, names[b]));
        let i = ranked(scores, a as nat);
        let j = ranked(scores, b as nat);
        if names[a] == names[b] {
            lemma_replica_injective(volumes[i], scores[i], volumes[j], scores[j], subvolumes);
        }
    }
}

/// A sub-volume suffix begins with a slash and holds no other, nor a comma.
pub proof fn lemma_suffix_shape(score: Seq<u8>, subvolumes: nat)
    requires
        subvolumes >= 1,
    ensures
        subvolume_suffix(score, subvolumes).len() >= 5,
        subvolume_suffix(score, subvolumes)[0] == 0x2f,
        forall|i: int|
            1 <= i < subvolume_suffix(score, subvolumes).len() ==> {
                let b = #[trigger] subvolume_suffix(score, subvolumes)[i];
                b != 0x2f && b != 0x2c
            },
{
    let n = score_tail(score) % subvolumes;
    let digits = upper_hex2(n);
    let t = subvolume_suffix(score, subvolumes);
    if n >= 16 {
        lemma_numeral_shape(n, 16);
        assert(crate::encoding::numeral(n, 16).len() >= 2) by {
            lemma_numeral_shape(n / 16, 16);
        }
    }
    assert(digits.len() >= 2);
    assert forall|i: int| 0 <= i < digits.len() implies is_numeral_digit(#[trigger] digits[i]) by {
        if n >= 16 {
            lemma_numeral_shape(n, 16);
        } else {
            assert(digits =~= seq![0x30u8, crate::encoding::upper_digit(n as int)]);
        }
    }
    assert forall|i: int| 1 <= i < t.len() implies {
        let b = #[trigger] t[i];
        b != 0x2f && b != 0x2c
    } by {
        if i >= 3 {
            assert(t[i] == digits[i - 3]);
            assert(is_numeral_digit(digits[i - 3]));
        }
    }
}

/// The literal `/sv`.
fn subvolume_literal() -> (out: &'static [u8])
    ensures
        out@ == subvolume_tag(),
{
    proof {
        reveal_strlit("/sv");
    }
    let out = literal("/sv");
    assert(out@ =~= subvolume_tag());
    out
}

/// The scores of the volumes of a pool for a key.
fn scores_for(key: &[u8], volumes: &[Vec<u8>]) -> (scores: Vec<Vec<u8>>)
    ensures
        views(scores@) == scores_of(key@, views(volumes@)),
        scores@.len() == volumes@.len(),
        forall|i: int| 0 <= i < scores@.len() ==> (#[trigger] scores@[i])@.len() == 16,
{
    let mut scores: Vec<Vec<u8>> = Vec::new();
    let mut i: usize = 0;
    while i < volumes.len()
        invariant
            i <= volumes.len(),
            scores@.len() == i,
            forall|j: int| 0 <= j < i ==> (#[trigger] scores@[j])@ == score(key@, volumes@[j]@),
            forall|j: int| 0 <= j < i ==> (#[trigger] scores@[j])@.len() == 16,
        decreases volumes.len() - i,
    {
        let mut salted: Vec<u8> = to_vec(key);
        extend(&mut salted, volumes[i].as_slice());
        scores.push(md5_of(salted.as_slice()));
        i += 1;
    }
    assert(views(scores@) =~= scores_of(key@, views(volumes@)));
    scores
}

/// The unmarked volume that outranks every other unmarked one.
fn best_unmarked(scores: &[Vec<u8>], marks: &Vec<bool>, Ghost(k): Ghost<nat>) -> (best: usize)
    requires
        marks@.len() == scores@.len(),
        count_set(marks@, marks@.len()) == k,
        k < scores@.len(),
    ensures
        best < scores@.len(),
        !marks@[best as int],
        forall|j: int|
            0 <= j < scores@.len() && !marks@[j] && j != best ==> outranks(
                views(scores@),
                best as int,
                j,
            ),
{
    let ghost ranks = views(scores@);
    let mut found = false;
    let mut best: usize = 0;
    let mut j: usize = 0;
    while j < scores.len()
        invariant
            j <= scores@.len(),
            marks@.len() == scores@.len(),
            ranks == views(scores@),
            found ==> best < j && !marks@[best as int],
            found ==> forall|m: int|
                0 <= m < j && !marks@[m] && m != best ==> outranks(ranks, best as int, m),
            !found ==> forall|m: int| 0 <= m < j ==> marks@[m],
        decreases scores@.len() - j,
    {
        if !marks[j] {
            if !found {
                found = true;
                best = j;
            } else if precedes(scores[best].as_slice(), scores[j].as_slice()) {
                assert(outranks(ranks, j as int, best as int));
                assert forall|m: int| 0 <= m < j && !marks@[m] && m != j implies outranks(
                    ranks,
                    j as int,
                    m,
                ) by {
                    if m != best {
                        lemma_outranks_transitive(ranks, j as int, best as int, m);
                    }
                }
                best = j;
            } else {
                proof {
                    lemma_lex_total(ranks[best as int], ranks[j as int]);
                }
                assert(outranks(ranks, best as int, j as int));
            }
        }
        j += 1;
    }
    proof {
        if !found {
            lemma_count_all(marks@, marks@.len());
        }
    }
    best
}

/// A chosen volume as it is recorded.
fn replica_of(volume: &[u8], score: &[u8], svcount: usize) -> (out: Vec<u8>)
    requires
        svcount >= 1,
        score@.len() == 16,
    ensures
        out@ == replica(volume@, score@, svcount as nat),
{
    let mut out = to_vec(volume);
    if svcount != 1 {
        let tail: u64 = (score[12] as u64) * 0x100_0000 + (score[13] as u64) * 0x1_0000 + (
        score[14] as u64) * 0x100 + (score[15] as u64);
        extend(&mut out, subvolume_literal());
        push_upper_hex2(&mut out, tail % (svcount as u64));
        assert(out@ =~= replica(volume@, score@, svcount as nat));
    }
    out
}

/// The volumes chosen by the given scores, one score for each volume of the
/// pool: the `count` volumes with the highest scores, best first, each with
/// its sub-volume where volumes are divided in `svcount` parts. Of two
/// volumes with the same score the one that comes first in the pool is the
/// better.
pub fn choose_by_score(scores: &[Vec<u8>], volumes: &[Vec<u8>], count: usize, svcount: usize) -> (out:
    Vec<Vec<u8>>)
    requires
        svcount >= 1,
        scores@.len() == volumes@.len(),
        forall|i: int| 0 <= i < scores@.len() ==> (#[trigger] scores@[i])@.len() == 16,
    ensures
        views(out@) == chosen(views(scores@), views(volumes@), count as nat, svcount as nat),
        out@.len() == fanout(volumes@.len(), count as nat),
        forall|k: int|
            0 <= k < out@.len() ==> #[trigger] holds_rank(
                views(scores@),
                views(volumes@),
                svcount as nat,
                k,
                out@[k]@,
            ),
{
    let ghost ranks = views(scores@);
    let take = if count <= volumes.len() {
        count
    } else {
        volumes.len()
    };
    let mut marks: Vec<bool> = Vec::new();
    while marks.len() < volumes.len()
        invariant
            marks@.len() <= volumes@.len(),
            forall|j: int| 0 <= j < marks@.len() ==> !marks@[j],
        decreases volumes@.len() - marks@.len(),
    {
        marks.push(false);
    }
    proof {
        lemma_count_none(marks@, marks@.len());
    }
    let mut out: Vec<Vec<u8>> = Vec::new();
    while out.len() < take
        invariant
            take == fanout(volumes@.len(), count as nat),
            svcount >= 1,
            ranks == views(scores@),
            scores@.len() == volumes@.len(),
            forall|i: int| 0 <= i < scores@.len() ==> (#[trigger] scores@[i])@.len() == 16,
            marks@.len() == volumes@.len(),
            out@.len() <= take,
            count_set(marks@, marks@.len()) == out@.len(),
            forall|j: int| 0 <= j < ranks.len() ==> (marks@[j] <==> rank(ranks, j) < out@.len()),
            forall|k: int|
                0 <= k < out@.len() ==> #[trigger] holds_rank(
                    ranks,
                    views(volumes@),
                    svcount as nat,
                    k,
                    out@[k]@,
                ),
        decreases take - out@.len(),
    {
        let ghost k = out@.len();
        let ghost before = marks@;
        let best = best_unmarked(scores, &marks, Ghost(k));
        proof {
            lemma_best_has_rank(ranks, before, k, best as int);
        }
        marks.set(best, true);
        let ghost sofar = out@;
        out.push(replica_of(volumes[best].as_slice(), scores[best].as_slice(), svcount));
        assert forall|m: int| 0 <= m < out@.len() implies #[trigger] holds_rank(
            ranks,
            views(volumes@),
            svcount as nat,
            m,
            out@[m]@,
        ) by {
            if m < k {
                assert(out@[m] == sofar[m]);
                assert(holds_rank(ranks, views(volumes@), svcount as nat, m, sofar[m]@));
            } else {
                assert(ranked(ranks, m as nat) == best);
                assert(ranks[best as int] == scores@[best as int]@);
            }
        }
    }
    assert forall|m: int| 0 <= m < out@.len() implies views(out@)[m] == chosen(
        ranks,
        views(volumes@),
        count as nat,
        svcount as nat,
    )[m] by {
        assert(holds_rank(ranks, views(volumes@), svcount as nat, m, out@[m]@));
    }
    assert(views(out@) =~= chosen(ranks, views(volumes@), count as nat, svcount as nat));
    out
}

/// The volumes that hold a key: the `count` volumes of the pool with the
/// highest scores for the key, best first, each with its sub-volume where
/// volumes are divided in `svcount` parts.
///
/// The result depends on the key, the pool and the two counts alone. Where
/// the pool holds fewer than `count` volumes, all of them are chosen.
pub fn key2volume(key: &[u8], volumes: &[Vec<u8>], count: usize, svcount: usize) -> (out: Vec<
    Vec<u8>,
>)
    requires
        svcount >= 1,
    ensures
        views(out@) == placement(key@, views(volumes@), count as nat, svcount as nat),
        out@.len() == fanout(volumes@.len(), count as nat),
        forall|k: int|
            0 <= k < out@.len() ==> #[trigger] holds_rank(
                scores_of(key@, views(volumes@)),
                views(volumes@),
                svcount as nat,
                k,
                out@[k]@,
            ),
{
    let scores = scores_for(key, volumes);
    choose_by_score(scores.as_slice(), volumes, count, svcount)
}

/// Where none of the first `upto` marks is set, no mark is.
proof fn lemma_count_none(marks: Seq<bool>, upto: nat)
    requires
        upto <= marks.len(),
        forall|j: int| 0 <= j < upto ==> !marks[j],
    ensures
        count_set(marks, upto) == 0,
    decreases upto,
{
    if upto > 0 {
        lemma_count_none(marks, (upto - 1) as nat);
    }
}

/// The path of a key, from the digest of the key and its base64 text.
pub fn path_from_parts(digest: &[u8], encoded: &[u8]) -> (out: Vec<u8>)
    requires
        digest@.len() >= 2,
    ensures
        out@ == path_of(digest@, encoded@),
{
    let mut out: Vec<u8> = Vec::new();
    out.push(0x2f);
    push_hex_byte(&mut out, digest[0]);
    out.push(0x2f);
    push_hex_byte(&mut out, digest[1]);
    out.push(0x2f);
    extend(&mut out, encoded);
    assert(out@ =~= path_of(digest@, encoded@));
    out
}

/// The path under which every volume stores a key: two directory levels
/// taken from the MD5 of the key, then the key in base64.
pub fn key2path(key: &[u8]) -> (out: Vec<u8>)
    requires
        key_fits(key@),
    ensures
        out@ == key_path(key@),
{
    let digest = md5_of(key);
    let encoded = base64_url_of(key);
    path_from_parts(digest.as_slice(), encoded.as_slice())
}

/// Whether a key of this length is short enough for its path to be written.
pub fn key_len_fits(len: usize) -> (r: bool)
    ensures
        r == (base64_len(len as nat) <= usize::MAX),
{
    if len % 3 == 0 {
        len / 3 <= usize::MAX / 4
    } else {
        len / 3 <= (usize::MAX - 4) / 4
    }
}

/// Whether a key is short enough for its path to be written.
pub fn key_is_short(key: &[u8]) -> (r: bool)
    ensures
        r == key_fits(key@),
{
    proof {
        lemma_base64_len(key@);
    }
    key_len_fits(key.len())
}

/// Whether the volumes that hold a key differ from the volumes that should:
/// the two lists are compared position by position.
pub fn needs_rebalance(volumes: &[Vec<u8>], kvolumes: &[Vec<u8>]) -> (r: bool)
    ensures
        r == (views(volumes@) != views(kvolumes@)),
{
    if volumes.len() != kvolumes.len() {
        assert(views(volumes@).len() != views(kvolumes@).len());
        return true;
    }
    let mut i: usize = 0;
    while i < volumes.len()
        invariant
            i <= volumes.len(),
            volumes.len() == kvolumes.len(),
            forall|j: int| 0 <= j < i ==> views(volumes@)[j] == views(kvolumes@)[j],
        decreases volumes.len() - i,
    {
        if !same(volumes[i].as_slice(), kvolumes[i].as_slice()) {
            assert(views(volumes@)[i as int] != views(kvolumes@)[i as int]);
            return true;
        }
        i += 1;
    }
    assert(views(volumes@) =~= views(kvolumes@));
    false
}

} // verus!
