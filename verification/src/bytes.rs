//! Byte strings.
//!
//! Keys, volume identifiers, index rows and query strings are all plain byte
//! strings here. This module holds the vocabulary the rest of the crate uses
//! to talk about them: literals, prefixes, bytewise order, splitting on a
//! separator and joining with one.

use vstd::prelude::*;
use vstd::slice::slice_subrange;

verus! {

/// The bytes of a text made of ASCII characters only.
pub open spec fn ascii(text: Seq<char>) -> Seq<u8> {
    Seq::new(text.len(), |i: int| text[i] as u8)
}

/// The views of the byte strings held in a vector.
pub open spec fn views(items: Seq<Vec<u8>>) -> Seq<Seq<u8>> {
    Seq::new(items.len(), |i: int| items[i]@)
}

/// The bytes of an ASCII string literal.
pub(crate) fn literal(text: &'static str) -> (out: &'static [u8])
    requires
        vstd::string::is_ascii(text),
    ensures
        out@ == ascii(text@),
{
    broadcast use vstd::string::is_ascii_spec_bytes;

    text.as_bytes()
}

/// Appends `src` to `dst`.
pub fn extend(dst: &mut Vec<u8>, src: &[u8])
    ensures
        final(dst)@ == old(dst)@ + src@,
{
    let mut i: usize = 0;
    while i < src.len()
        invariant
            i <= src.len(),
            dst@ == old(dst)@ + src@.take(i as int),
        decreases src.len() - i,
    {
        dst.push(src[i]);
        i += 1;
        assert(dst@ =~= old(dst)@ + src@.take(i as int));
    }
    assert(src@.take(src.len() as int) =~= src@);
}

/// A fresh vector holding the bytes of `src`.
pub fn to_vec(src: &[u8]) -> (out: Vec<u8>)
    ensures
        out@ == src@,
{
    let mut out: Vec<u8> = Vec::new();
    extend(&mut out, src);
    assert(out@ =~= src@);
    out
}

/// Fresh copies of the byte strings of a list, in their order.
pub fn copy_all(items: &[Vec<u8>]) -> (out: Vec<Vec<u8>>)
    ensures
        views(out@) == views(items@),
{
    let mut out: Vec<Vec<u8>> = Vec::new();
    let mut i: usize = 0;
    while i < items.len()
        invariant
            i <= items.len(),
            views(out@) == views(items@).take(i as int),
        decreases items.len() - i,
    {
        let ghost before = views(out@);
        out.push(to_vec(items[i].as_slice()));
        assert(views(out@) =~= before.push(items@[i as int]@));
        i += 1;
        assert(views(out@) =~= views(items@).take(i as int));
    }
    assert(views(items@).take(items.len() as int) =~= views(items@));
    out
}

/// Whether `id` is one of the byte strings of a list.
pub fn is_among(items: &[Vec<u8>], id: &[u8]) -> (r: bool)
    ensures
        r == views(items@).contains(id@),
{
    let mut i: usize = 0;
    while i < items.len()
        invariant
            i <= items.len(),
            forall|j: int| 0 <= j < i ==> views(items@)[j] != id@,
        decreases items.len() - i,
    {
        if same(items[i].as_slice(), id) {
            assert(views(items@)[i as int] == id@);
            return true;
        }
        i += 1;
    }
    false
}

/// The byte strings of `a` that are not among those of `b`, in the order of `a`.
pub open spec fn without(a: Seq<Seq<u8>>, b: Seq<Seq<u8>>) -> Seq<Seq<u8>>
    decreases a.len(),
{
    if a.len() == 0 {
        Seq::empty()
    } else if b.contains(a.last()) {
        without(a.drop_last(), b)
    } else {
        without(a.drop_last(), b).push(a.last())
    }
}

/// The byte strings of `a` that are not among those of `b`, in the order of `a`.
pub fn difference(a: &[Vec<u8>], b: &[Vec<u8>]) -> (out: Vec<Vec<u8>>)
    ensures
        views(out@) == without(views(a@), views(b@)),
{
    let mut out: Vec<Vec<u8>> = Vec::new();
    let mut i: usize = 0;
    while i < a.len()
        invariant
            i <= a.len(),
            views(out@) == without(views(a@).take(i as int), views(b@)),
        decreases a.len() - i,
    {
        let ghost next = views(a@).take(i + 1);
        assert(next.drop_last() =~= views(a@).take(i as int));
        assert(next.last() == a@[i as int]@);
        if !is_among(b, a[i].as_slice()) {
            out.push(to_vec(a[i].as_slice()));
            assert(views(out@) =~= without(next, views(b@)));
        }
        i += 1;
    }
    assert(views(a@).take(a.len() as int) =~= views(a@));
    out
}

/// What `without` keeps is what was there and is not excluded.
pub proof fn lemma_without(a: Seq<Seq<u8>>, b: Seq<Seq<u8>>)
    ensures
        forall|x: Seq<u8>| without(a, b).contains(x) <==> a.contains(x) && !b.contains(x),
    decreases a.len(),
{
    if a.len() == 0 {
    } else {
        let init = a.drop_last();
        lemma_without(init, b);
        assert forall|x: Seq<u8>| without(a, b).contains(x) <==> a.contains(x) && !b.contains(
            x,
        ) by {
            if a.contains(x) {
                let i = choose|i: int| 0 <= i < a.len() && a[i] == x;
                if i < a.len() - 1 {
                    assert(init[i] == x);
                }
            }
            if init.contains(x) {
                let i = choose|i: int| 0 <= i < init.len() && init[i] == x;
                assert(a[i] == x);
            }
            if !b.contains(a.last()) {
                let kept = without(init, b);
                if without(a, b).contains(x) {
                    let i = choose|i: int| 0 <= i < without(a, b).len() && without(a, b)[i] == x;
                    if i < kept.len() {
                        assert(kept[i] == x);
                    } else {
                        assert(x == a.last());
                        assert(a[a.len() - 1] == x);
                    }
                }
                if kept.contains(x) {
                    let i = choose|i: int| 0 <= i < kept.len() && kept[i] == x;
                    assert(without(a, b)[i] == x);
                }
                if x == a.last() {
                    assert(without(a, b)[kept.len() as int] == x);
                    assert(a[a.len() - 1] == x);
                }
            }
        }
    }
}

/// The part of `data` from position `from` on.
pub fn tail(data: &[u8], from: usize) -> (out: &[u8])
    requires
        from <= data@.len(),
    ensures
        out@ == data@.skip(from as int),
{
    slice_subrange(data, from, data.len())
}

/// The part of `data` between `from` and `to`.
pub fn window(data: &[u8], from: usize, to: usize) -> (out: &[u8])
    requires
        from <= to <= data@.len(),
    ensures
        out@ == data@.subrange(from as int, to as int),
{
    slice_subrange(data, from, to)
}

/// Whether two byte strings are the same.
pub fn same(a: &[u8], b: &[u8]) -> (r: bool)
    ensures
        r == (a@ == b@),
{
    if a.len() != b.len() {
        return false;
    }
    let mut i: usize = 0;
    while i < a.len()
        invariant
            i <= a.len(),
            a.len() == b.len(),
            forall|j: int| 0 <= j < i ==> a@[j] == b@[j],
        decreases a.len() - i,
    {
        if a[i] != b[i] {
            return false;
        }
        i += 1;
    }
    assert(a@ =~= b@);
    true
}

/// Whether `data` begins with `prefix`.
pub fn has_prefix(data: &[u8], prefix: &[u8]) -> (r: bool)
    ensures
        r == prefix@.is_prefix_of(data@),
{
    if prefix.len() > data.len() {
        return false;
    }
    let mut i: usize = 0;
    while i < prefix.len()
        invariant
            i <= prefix.len() <= data.len(),
            forall|j: int| 0 <= j < i ==> prefix@[j] == data@[j],
        decreases prefix.len() - i,
    {
        if prefix[i] != data[i] {
            assert(data@.subrange(0, prefix@.len() as int)[i as int] != prefix@[i as int]);
            return false;
        }
        i += 1;
    }
    assert(prefix@ =~= data@.subrange(0, prefix@.len() as int));
    true
}

/// Whether `byte` occurs in `data`.
pub fn contains_byte(data: &[u8], byte: u8) -> (r: bool)
    ensures
        r == data@.contains(byte),
{
    let mut i: usize = 0;
    while i < data.len()
        invariant
            i <= data.len(),
            forall|j: int| 0 <= j < i ==> data@[j] != byte,
        decreases data.len() - i,
    {
        if data[i] == byte {
            return true;
        }
        i += 1;
    }
    false
}

/// Bytewise lexicographic order: `a` comes strictly before `b`.
pub open spec fn lex_lt(a: Seq<u8>, b: Seq<u8>) -> bool
    decreases a.len(),
{
    if b.len() == 0 {
        false
    } else if a.len() == 0 {
        true
    } else if a[0] != b[0] {
        a[0] < b[0]
    } else {
        lex_lt(a.drop_first(), b.drop_first())
    }
}

/// No byte string comes before itself.
pub proof fn lemma_lex_irreflexive(a: Seq<u8>)
    ensures
        !lex_lt(a, a),
    decreases a.len(),
{
    if a.len() > 0 {
        lemma_lex_irreflexive(a.drop_first());
    }
}

/// Of two different byte strings exactly one comes before the other.
pub proof fn lemma_lex_total(a: Seq<u8>, b: Seq<u8>)
    ensures
        a != b ==> (lex_lt(a, b) <==> !lex_lt(b, a)),
        a == b ==> !lex_lt(a, b) && !lex_lt(b, a),
    decreases a.len(),
{
    if a == b {
        lemma_lex_irreflexive(a);
    } else if a.len() == 0 || b.len() == 0 {
        assert(a.len() != b.len()) by {
            if a.len() == b.len() {
                assert(a =~= b);
            }
        }
    } else if a[0] != b[0] {
    } else {
        lemma_lex_total(a.drop_first(), b.drop_first());
        if a.drop_first() == b.drop_first() {
            assert(a =~= seq![a[0]] + a.drop_first());
            assert(b =~= seq![b[0]] + b.drop_first());
            assert(a =~= b);
        }
    }
}

/// The bytewise order is transitive.
pub proof fn lemma_lex_transitive(a: Seq<u8>, b: Seq<u8>, c: Seq<u8>)
    requires
        lex_lt(a, b),
        lex_lt(b, c),
    ensures
        lex_lt(a, c),
    decreases a.len(),
{
    if a.len() == 0 {
    } else if a[0] != b[0] || b[0] != c[0] {
    } else {
        lemma_lex_transitive(a.drop_first(), b.drop_first(), c.drop_first());
    }
}

/// Whether `a` comes strictly before `b` in bytewise order.
pub fn precedes(a: &[u8], b: &[u8]) -> (r: bool)
    ensures
        r == lex_lt(a@, b@),
{
    let mut i: usize = 0;
    assert(a@.skip(0) =~= a@ && b@.skip(0) =~= b@);
    while i < a.len() && i < b.len()
        invariant
            i <= a.len(),
            i <= b.len(),
            lex_lt(a@, b@) == lex_lt(a@.skip(i as int), b@.skip(i as int)),
        decreases a.len() - i,
    {
        let ghost ra = a@.skip(i as int);
        let ghost rb = b@.skip(i as int);
        assert(ra[0] == a@[i as int] && rb[0] == b@[i as int]);
        if a[i] != b[i] {
            return a[i] < b[i];
        }
        assert(ra.drop_first() =~= a@.skip(i + 1));
        assert(rb.drop_first() =~= b@.skip(i + 1));
        i += 1;
    }
    i < b.len()
}

/// The position of the first `sep` in `s`, or the length of `s` if there is none.
pub open spec fn first_at(s: Seq<u8>, sep: u8) -> int
    decreases s.len(),
{
    if s.len() == 0 || s[0] == sep {
        0
    } else {
        1 + first_at(s.drop_first(), sep)
    }
}

/// `first_at` finds the first separator: nothing before it is one, and it
/// stops at the end only when there is none.
pub proof fn lemma_first_at(s: Seq<u8>, sep: u8)
    ensures
        0 <= first_at(s, sep) <= s.len(),
        forall|j: int| 0 <= j < first_at(s, sep) ==> s[j] != sep,
        first_at(s, sep) < s.len() ==> s[first_at(s, sep)] == sep,
    decreases s.len(),
{
    if s.len() == 0 || s[0] == sep {
    } else {
        let rest = s.drop_first();
        lemma_first_at(rest, sep);
        assert forall|j: int| 0 <= j < first_at(s, sep) implies s[j] != sep by {
            if j > 0 {
                assert(s[j] == rest[j - 1]);
            }
        }
        if first_at(s, sep) < s.len() {
            assert(s[first_at(s, sep)] == rest[first_at(rest, sep)]);
        }
    }
}

/// A position with no separator before it, which holds one or is the end,
/// is the one that `first_at` finds.
pub proof fn lemma_first_at_is(s: Seq<u8>, sep: u8, k: int)
    requires
        0 <= k <= s.len(),
        forall|j: int| 0 <= j < k ==> s[j] != sep,
        k < s.len() ==> s[k] == sep,
    ensures
        first_at(s, sep) == k,
{
    lemma_first_at(s, sep);
    let f = first_at(s, sep);
    if f < k {
        assert(s[f] != sep);
    } else if k < f {
        assert(s[k] != sep);
    }
}

/// The pieces of `s` between occurrences of `sep`. There is always at least
/// one piece; an empty `s` has one empty piece.
pub open spec fn split(s: Seq<u8>, sep: u8) -> Seq<Seq<u8>>
    decreases s.len(),
{
    let k = first_at(s, sep);
    if 0 <= k < s.len() {
        seq![s.take(k)] + split(s.skip(k + 1), sep)
    } else {
        seq![s]
    }
}

/// The pieces of `parts` put together with `sep` between neighbours.
pub open spec fn join(parts: Seq<Seq<u8>>, sep: u8) -> Seq<u8>
    decreases parts.len(),
{
    if parts.len() == 0 {
        Seq::empty()
    } else if parts.len() == 1 {
        parts[0]
    } else {
        join(parts.drop_last(), sep) + seq![sep] + parts.last()
    }
}

/// Whether no piece holds the separator.
pub open spec fn free_of(parts: Seq<Seq<u8>>, sep: u8) -> bool {
    forall|i: int| 0 <= i < parts.len() ==> !(#[trigger] parts[i]).contains(sep)
}

/// `join` read from the front: the first piece, a separator, the rest joined.
pub proof fn lemma_join_front(parts: Seq<Seq<u8>>, sep: u8)
    requires
        parts.len() >= 2,
    ensures
        join(parts, sep) == parts[0] + seq![sep] + join(parts.drop_first(), sep),
    decreases parts.len(),
{
    if parts.len() == 2 {
        assert(parts.drop_last() =~= seq![parts[0]]);
        assert(parts.drop_first() =~= seq![parts[1]]);
        assert(join(parts.drop_last(), sep) == parts[0]);
        assert(join(parts.drop_first(), sep) == parts[1]);
    } else {
        let init = parts.drop_last();
        lemma_join_front(init, sep);
        assert(init.drop_first() =~= parts.drop_first().drop_last());
        assert(parts.drop_first().last() == parts.last());
        assert(init[0] == parts[0]);
        assert(join(parts, sep) =~= parts[0] + seq![sep] + join(parts.drop_first(), sep));
    }
}

/// Splitting what was joined gives the pieces back, as long as there is at
/// least one piece and none holds the separator.
pub proof fn lemma_split_join(parts: Seq<Seq<u8>>, sep: u8)
    requires
        parts.len() >= 1,
        free_of(parts, sep),
    ensures
        split(join(parts, sep), sep) == parts,
    decreases parts.len(),
{
    let joined = join(parts, sep);
    if parts.len() == 1 {
        assert(!parts[0].contains(sep));
        lemma_first_at_is(joined, sep, joined.len() as int);
        assert(split(joined, sep) =~= parts);
    } else {
        lemma_join_front(parts, sep);
        let head = parts[0];
        let rest = parts.drop_first();
        assert(!head.contains(sep));
        assert(joined[head.len() as int] == sep);
        assert forall|j: int| 0 <= j < head.len() implies joined[j] != sep by {
            assert(joined[j] == head[j]);
        }
        lemma_first_at_is(joined, sep, head.len() as int);
        assert(joined.take(head.len() as int) =~= head);
        assert(joined.skip(head.len() as int + 1) =~= join(rest, sep));
        assert forall|i: int| 0 <= i < rest.len() implies !(#[trigger] rest[i]).contains(sep) by {
            assert(rest[i] == parts[i + 1]);
        }
        lemma_split_join(rest, sep);
        assert(split(joined, sep) =~= parts);
    }
}

/// Splitting always gives at least one piece, and no piece holds the separator.
pub proof fn lemma_split_pieces(s: Seq<u8>, sep: u8)
    ensures
        split(s, sep).len() >= 1,
        free_of(split(s, sep), sep),
        split(s, sep)[0] == s.take(first_at(s, sep)),
    decreases s.len(),
{
    lemma_first_at(s, sep);
    let k = first_at(s, sep);
    if 0 <= k < s.len() {
        lemma_split_pieces(s.skip(k + 1), sep);
        let rest = split(s.skip(k + 1), sep);
        assert forall|i: int| 0 <= i < split(s, sep).len() implies !(#[trigger] split(
            s,
            sep,
        )[i]).contains(sep) by {
            if i == 0 {
                assert(split(s, sep)[0] == s.take(k));
            } else {
                assert(split(s, sep)[i] == rest[i - 1]);
            }
        }
    } else {
        assert(s.take(k) =~= s);
        assert(split(s, sep)[0] == s);
    }
}

/// Joining the pieces of a text gives the text back.
pub proof fn lemma_join_split(s: Seq<u8>, sep: u8)
    ensures
        join(split(s, sep), sep) == s,
    decreases s.len(),
{
    lemma_first_at(s, sep);
    let k = first_at(s, sep);
    if 0 <= k < s.len() {
        let rest = s.skip(k + 1);
        let pieces = split(s, sep);
        lemma_join_split(rest, sep);
        lemma_split_pieces(rest, sep);
        assert(pieces.drop_first() =~= split(rest, sep));
        lemma_join_front(pieces, sep);
        assert(join(pieces, sep) =~= s);
    }
}

/// The first `sep` in `data` at or after `from`, or the length of `data`.
pub fn find_from(data: &[u8], from: usize, sep: u8) -> (at: usize)
    requires
        from <= data@.len(),
    ensures
        from <= at <= data@.len(),
        at - from == first_at(data@.skip(from as int), sep),
{
    let mut i: usize = from;
    while i < data.len() && data[i] != sep
        invariant
            from <= i <= data.len(),
            forall|j: int| from <= j < i ==> data@[j] != sep,
        decreases data.len() - i,
    {
        i += 1;
    }
    proof {
        lemma_first_at_is(data@.skip(from as int), sep, i - from);
    }
    i
}

/// The pieces of `data` between occurrences of `sep`.
pub fn split_on(data: &[u8], sep: u8) -> (pieces: Vec<Vec<u8>>)
    ensures
        views(pieces@) == split(data@, sep),
{
    let mut pieces: Vec<Vec<u8>> = Vec::new();
    let mut start: usize = 0;
    assert(data@.skip(0) =~= data@);
    assert(views(pieces@) + split(data@, sep) =~= split(data@, sep));
    loop
        invariant_except_break
            start <= data.len(),
            split(data@, sep) == views(pieces@) + split(data@.skip(start as int), sep),
        ensures
            views(pieces@) == split(data@, sep),
        decreases data.len() - start,
    {
        let ghost before = views(pieces@);
        let ghost rest = data@.skip(start as int);
        let at = find_from(data, start, sep);
        pieces.push(to_vec(window(data, start, at)));
        assert(rest.take(at - start) =~= data@.subrange(start as int, at as int));
        assert(views(pieces@) =~= before.push(rest.take(at - start)));
        if at == data.len() {
            assert(rest.take(at - start) =~= rest);
            assert(split(rest, sep) =~= seq![rest]);
            break;
        }
        assert(rest.skip(at - start + 1) =~= data@.skip(at + 1));
        assert(split(data@, sep) =~= views(pieces@) + split(data@.skip(at + 1), sep));
        start = at + 1;
    }
    pieces
}

/// The pieces put together with `sep` between neighbours.
pub fn join_with(parts: &[Vec<u8>], sep: u8) -> (out: Vec<u8>)
    ensures
        out@ == join(views(parts@), sep),
{
    let mut out: Vec<u8> = Vec::new();
    let mut i: usize = 0;
    while i < parts.len()
        invariant
            i <= parts.len(),
            out@ == join(views(parts@).take(i as int), sep),
        decreases parts.len() - i,
    {
        let ghost done = views(parts@).take(i as int);
        let ghost next = views(parts@).take(i + 1);
        assert(next.drop_last() =~= done);
        assert(next.last() == parts@[i as int]@);
        if i > 0 {
            out.push(sep);
        }
        extend(&mut out, parts[i].as_slice());
        assert(out@ =~= join(next, sep));
        i += 1;
    }
    assert(views(parts@).take(parts.len() as int) =~= views(parts@));
    out
}

} // verus!
