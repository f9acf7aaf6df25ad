//! Ordering of the symbol dictionary: sorting the first tick's symbols
//! before indices are assigned makes blobs of equal input byte-identical.

use vstd::prelude::*;
use vstd::utf8::encode_utf8;
use crate::compression::symbols_view;

verus! {

/// Byte-wise lexicographic order of `a` and `b`, from position `i` on.
pub open spec fn bytes_lt_from(a: Seq<u8>, b: Seq<u8>, i: int) -> bool
    decreases a.len() - i,
{
    if i < 0 || i >= a.len() {
        0 <= i < b.len()
    } else if i >= b.len() {
        false
    } else if a[i] != b[i] {
        a[i] < b[i]
    } else {
        bytes_lt_from(a, b, i + 1)
    }
}

/// Whether `a` comes strictly before `b` in byte-wise lexicographic order.
pub open spec fn bytes_lt(a: Seq<u8>, b: Seq<u8>) -> bool {
    bytes_lt_from(a, b, 0)
}

/// Whether the symbols are in lexicographic order of their UTF-8 bytes.
pub open spec fn in_dictionary_order(s: Seq<Seq<char>>) -> bool {
    forall|i: int, j: int|
        0 <= i < j < s.len() ==> !bytes_lt(encode_utf8(#[trigger] s[j]), encode_utf8(#[trigger] s[i]))
}

proof fn lemma_bytes_lt_transitive(a: Seq<u8>, b: Seq<u8>, c: Seq<u8>, i: int)
    requires
        0 <= i,
        bytes_lt_from(a, b, i),
        bytes_lt_from(b, c, i),
    ensures
        bytes_lt_from(a, c, i),
    decreases a.len() - i,
{
    if i < a.len() && a[i] == b[i] && b[i] == c[i] {
        lemma_bytes_lt_transitive(a, b, c, i + 1);
    }
}

proof fn lemma_bytes_lt_irreflexive(a: Seq<u8>, i: int)
    requires
        0 <= i,
    ensures
        !bytes_lt_from(a, a, i),
    decreases a.len() - i,
{
    if i < a.len() {
        lemma_bytes_lt_irreflexive(a, i + 1);
    }
}

/// Whether `a` comes strictly before `b`, byte-wise.
fn bytes_less(a: &[u8], b: &[u8]) -> (r: bool)
    ensures
        r == bytes_lt(a@, b@),
{
    let mut i: usize = 0;
    while i < a.len() && i < b.len() && a[i] == b[i]
        invariant
            i <= a@.len(),
            i <= b@.len(),
            bytes_lt(a@, b@) == bytes_lt_from(a@, b@, i as int),
        decreases a@.len() - i,
    {
        i = i + 1;
    }
    if i >= a.len() {
        i < b.len()
    } else if i >= b.len() {
        false
    } else {
        a[i] < b[i]
    }
}

/// The symbols in lexicographic order of their UTF-8 bytes; symbols that
/// are equal keep their relative order.
pub fn sorted_symbols(symbols: &Vec<String>) -> (r: Vec<String>)
    ensures
        r@.to_multiset() == symbols@.to_multiset(),
        in_dictionary_order(symbols_view(r@)),
{
    let mut out: Vec<String> = Vec::new();
    let mut i: usize = 0;
    proof {
        assert(symbols@.subrange(0, 0) =~= Seq::<String>::empty());
        assert(out@ =~= Seq::<String>::empty());
    }
    while i < symbols.len()
        invariant
            i <= symbols@.len(),
            out@.to_multiset() == symbols@.subrange(0, i as int).to_multiset(),
            in_dictionary_order(symbols_view(out@)),
        decreases symbols@.len() - i,
    {
        let s = symbols[i].clone();
        let sb = s.as_str().as_bytes();
        let mut p: usize = 0;
        while p < out.len() && !bytes_less(sb, out[p].as_str().as_bytes())
            invariant
                p <= out@.len(),
                sb@ == encode_utf8(s@),
                forall|k: int| 0 <= k < p ==> !bytes_lt(sb@, encode_utf8(#[trigger] out@[k]@)),
            decreases out@.len() - p,
        {
            p = p + 1;
        }
        let ghost before = out@;
        let ghost sv = s@;
        let ghost sg = s;
        assert(sg == symbols@[i as int]);
        out.insert(p, s);
        proof {
            let v = symbols_view(out@);
            let w = symbols_view(before);
            assert(out@ == before.insert(p as int, s));
            assert forall|a: int, b: int| 0 <= a < b < v.len() implies !bytes_lt(
                encode_utf8(#[trigger] v[b]),
                encode_utf8(#[trigger] v[a]),
            ) by {
                let ea = encode_utf8(v[a]);
                let eb = encode_utf8(v[b]);
                if a < p && b == p {
                    assert(v[a] == w[a]);
                    assert(v[b] == sv);
                } else if a < p && b > p {
                    assert(v[a] == w[a] && v[b] == w[b - 1]);
                } else if a == p {
                    assert(v[a] == sv);
                    assert(v[b] == w[b - 1]);
                    assert(p < before.len());
                    let ep = encode_utf8(w[p as int]);
                    assert(bytes_lt(sb@, ep));
                    if bytes_lt(eb, ea) {
                        lemma_bytes_lt_transitive(eb, ea, ep, 0);
                        if b - 1 == p {
                            lemma_bytes_lt_irreflexive(ep, 0);
                        } else {
                            assert(!bytes_lt(eb, ep));
                        }
                    }
                } else if a > p {
                    assert(v[a] == w[a - 1] && v[b] == w[b - 1]);
                } else {
                    assert(v[a] == w[a] && v[b] == w[b]);
                }
            }
            let done = symbols@.subrange(0, i as int);
            assert(symbols@.subrange(0, i + 1) =~= done.push(sg));
            vstd::seq_lib::to_multiset_insert(before, p as int, sg);
            vstd::seq_lib::to_multiset_build(done, sg);
        }
        i = i + 1;
    }
    proof {
        assert(symbols@.subrange(0, symbols@.len() as int) =~= symbols@);
    }
    out
}

} // verus!
