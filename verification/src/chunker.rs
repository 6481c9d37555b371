//! Splitting a payload into fixed-size pieces and deriving the hash-chained
//! identifiers that make the sequence tamper-evident.

use vstd::prelude::*;
use vstd::utf8::encode_utf8;
use crate::hasher::fingerprint_of;

verus! {

/// The consecutive pieces of `data`, each of `c` elements except a shorter
/// final piece. An empty input has no pieces.
pub open spec fn chunk_seq<T>(data: Seq<T>, c: nat) -> Seq<Seq<T>>
    recommends
        c > 0,
    decreases data.len(),
    when c > 0
{
    if data.len() == 0 {
        Seq::empty()
    } else if data.len() <= c {
        seq![data]
    } else {
        seq![data.take(c as int)] + chunk_seq(data.skip(c as int), c)
    }
}

/// Concatenating the pieces restores the original data: the mathematical
/// core of the store/retrieve round trip.
pub proof fn lemma_chunk_seq_flatten<T>(data: Seq<T>, c: nat)
    requires
        c > 0,
    ensures
        chunk_seq(data, c).flatten() == data,
    decreases data.len(),
{
    if data.len() == 0 {
        assert(chunk_seq(data, c).flatten() =~= data);
    } else if data.len() <= c {
        assert(chunk_seq(data, c) =~= seq![data]);
        seq![data].lemma_flatten_singleton();
        assert(chunk_seq(data, c).flatten() =~= data);
    } else {
        lemma_chunk_seq_flatten(data.skip(c as int), c);
        vstd::seq_lib::lemma_flatten_concat(
            seq![data.take(c as int)],
            chunk_seq(data.skip(c as int), c),
        );
        seq![data.take(c as int)].lemma_flatten_singleton();
        assert(chunk_seq(data, c).flatten() =~= data);
    }
}

/// Every piece of a chunking is at most `c` long, and every piece but the
/// last is exactly `c` long.
pub proof fn lemma_chunk_seq_piece_len<T>(data: Seq<T>, c: nat)
    requires
        c > 0,
    ensures
        forall|i: int| 0 <= i < chunk_seq(data, c).len() ==> #[trigger] chunk_seq(data, c)[i].len()
            <= c,
        forall|i: int| 0 <= i < chunk_seq(data, c).len() - 1 ==> #[trigger] chunk_seq(data, c)[i].len()
            == c,
    decreases data.len(),
{
    if data.len() > c {
        lemma_chunk_seq_piece_len(data.skip(c as int), c);
        let rest = chunk_seq(data.skip(c as int), c);
        assert forall|i: int| 0 <= i < chunk_seq(data, c).len() implies #[trigger] chunk_seq(
            data,
            c,
        )[i].len() <= c by {
            if i > 0 {
                assert(chunk_seq(data, c)[i] == rest[i - 1]);
            }
        }
        assert forall|i: int| 0 <= i < chunk_seq(data, c).len() - 1 implies #[trigger] chunk_seq(
            data,
            c,
        )[i].len() == c by {
            if i > 0 {
                assert(chunk_seq(data, c)[i] == rest[i - 1]);
            }
        }
    }
}

/// Mapping each element and then concatenating gives the same sequence as
/// concatenating and then mapping.
pub proof fn lemma_map_flatten<A, B>(xss: Seq<Seq<A>>, f: spec_fn(A) -> B)
    ensures
        xss.map_values(|xs: Seq<A>| xs.map_values(f)).flatten() == xss.flatten().map_values(f),
    decreases xss.len(),
{
    let mapped = xss.map_values(|xs: Seq<A>| xs.map_values(f));
    if xss.len() == 0 {
        assert(mapped =~= Seq::<Seq<B>>::empty());
        assert(xss.flatten().map_values(f) =~= Seq::<B>::empty());
        assert(mapped.flatten() =~= Seq::<B>::empty());
    } else {
        let tail = xss.drop_first();
        lemma_map_flatten(tail, f);
        assert(mapped.drop_first() =~= tail.map_values(|xs: Seq<A>| xs.map_values(f)));
        assert(mapped.first() == xss.first().map_values(f));
        assert(xss.flatten() == xss.first() + tail.flatten());
        assert(mapped.flatten() == mapped.first() + mapped.drop_first().flatten());
        assert((xss.first() + tail.flatten()).map_values(f) =~= xss.first().map_values(f)
            + tail.flatten().map_values(f));
        assert(mapped.flatten() =~= xss.flatten().map_values(f));
    }
}

/// The identifier of a cell: the fingerprint of its predecessor's
/// identifier (UTF-8 encoded; empty for the first cell) followed by the
/// cell's own bytes. Identical `(previous, data)` pairs always give the
/// same identifier.
pub open spec fn chain_id(prev: Seq<char>, data: Seq<u8>) -> Seq<char> {
    fingerprint_of(encode_utf8(prev) + data)
}

/// The identifiers of a whole chain of cell payloads, first cell first.
pub open spec fn chain_ids(datas: Seq<Seq<u8>>) -> Seq<Seq<char>>
    decreases datas.len(),
{
    if datas.len() == 0 {
        Seq::empty()
    } else {
        let prefix = chain_ids(datas.drop_last());
        let prev = if datas.len() == 1 {
            Seq::<char>::empty()
        } else {
            prefix.last()
        };
        prefix.push(chain_id(prev, datas.last()))
    }
}

pub proof fn lemma_chain_ids_len(datas: Seq<Seq<u8>>)
    ensures
        chain_ids(datas).len() == datas.len(),
    decreases datas.len(),
{
    if datas.len() > 0 {
        lemma_chain_ids_len(datas.drop_last());
    }
}

/// Each identifier is the chain step applied to its predecessor's
/// identifier and its own data.
pub proof fn lemma_chain_ids_index(datas: Seq<Seq<u8>>, k: int)
    requires
        0 <= k < datas.len(),
    ensures
        chain_ids(datas).len() == datas.len(),
        chain_ids(datas)[k] == chain_id(
            if k == 0 {
                Seq::<char>::empty()
            } else {
                chain_ids(datas)[k - 1]
            },
            datas[k],
        ),
    decreases datas.len(),
{
    lemma_chain_ids_len(datas);
    lemma_chain_ids_len(datas.drop_last());
    if k == datas.len() - 1 {
        if k > 0 {
            assert(chain_ids(datas)[k - 1] == chain_ids(datas.drop_last()).last());
        }
    } else {
        lemma_chain_ids_index(datas.drop_last(), k);
        assert(datas.drop_last()[k] == datas[k]);
        if k > 0 {
            assert(chain_ids(datas)[k - 1] == chain_ids(datas.drop_last())[k - 1]);
        }
    }
}

/// Appending a payload appends one identifier, chained to the last.
pub proof fn lemma_chain_ids_push(datas: Seq<Seq<u8>>, data: Seq<u8>)
    ensures
        chain_ids(datas.push(data)) == chain_ids(datas).push(
            chain_id(
                if datas.len() == 0 {
                    Seq::<char>::empty()
                } else {
                    chain_ids(datas).last()
                },
                data,
            ),
        ),
{
    lemma_chain_ids_len(datas);
    assert(datas.push(data).drop_last() =~= datas);
    assert(datas.push(data).last() == data);
}

proof fn lemma_chain_ids_agree_below(d1: Seq<Seq<u8>>, d2: Seq<Seq<u8>>, m: int)
    requires
        0 <= m <= d1.len(),
        m <= d2.len(),
        forall|k: int| 0 <= k < m ==> d1[k] == d2[k],
    ensures
        forall|k: int| 0 <= k < m ==> #[trigger] chain_ids(d1)[k] == chain_ids(d2)[k],
    decreases m,
{
    if m > 0 {
        lemma_chain_ids_agree_below(d1, d2, m - 1);
        lemma_chain_ids_index(d1, m - 1);
        lemma_chain_ids_index(d2, m - 1);
    }
}

proof fn lemma_tamper_step(d1: Seq<Seq<u8>>, d2: Seq<Seq<u8>>, j: int, k: int)
    requires
        0 <= j <= k < d1.len(),
        d2.len() == d1.len(),
        forall|i: int| 0 <= i < j ==> d1[i] == d2[i],
        d1[j] != d2[j],
        forall|p1: Seq<char>, b1: Seq<u8>, p2: Seq<char>, b2: Seq<u8>|
            #[trigger] chain_id(p1, b1) == #[trigger] chain_id(p2, b2) ==> p1 == p2 && b1 == b2,
    ensures
        chain_ids(d1)[k] != chain_ids(d2)[k],
    decreases k,
{
    lemma_chain_ids_index(d1, k);
    lemma_chain_ids_index(d2, k);
    if k == j {
        if k == 0 {
            assert(chain_ids(d1)[k] == chain_id(Seq::<char>::empty(), d1[k]));
            assert(chain_ids(d2)[k] == chain_id(Seq::<char>::empty(), d2[k]));
        } else {
            lemma_chain_ids_agree_below(d1, d2, j);
            assert(chain_ids(d1)[k - 1] == chain_ids(d2)[k - 1]);
        }
    } else {
        lemma_tamper_step(d1, d2, j, k - 1);
    }
}

/// Tamper propagation: change one cell's payload and recompute, and the
/// identifier of that cell and of every later cell changes. The final
/// hypothesis states that the chain step never collides on distinct
/// inputs; for a cryptographic digest this is the usual
/// collision-resistance assumption, which cannot itself be proved here.
pub proof fn lemma_tamper_propagates(d1: Seq<Seq<u8>>, d2: Seq<Seq<u8>>, j: int)
    requires
        0 <= j < d1.len(),
        d2.len() == d1.len(),
        forall|i: int| 0 <= i < j ==> d1[i] == d2[i],
        d1[j] != d2[j],
        forall|p1: Seq<char>, b1: Seq<u8>, p2: Seq<char>, b2: Seq<u8>|
            #[trigger] chain_id(p1, b1) == #[trigger] chain_id(p2, b2) ==> p1 == p2 && b1 == b2,
    ensures
        forall|k: int| j <= k < d1.len() ==> #[trigger] chain_ids(d1)[k] != chain_ids(d2)[k],
{
    assert forall|k: int| j <= k < d1.len() implies #[trigger] chain_ids(d1)[k] != chain_ids(
        d2,
    )[k] by {
        lemma_tamper_step(d1, d2, j, k);
    }
}

} // verus!
