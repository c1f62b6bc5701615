//! Counted sections: a run of items written one after another, each
//! possibly relative to the items before it. One pair of spec functions
//! describes how every section of every message is written and read.

use vstd::prelude::*;

use crate::codec::CodecError;

verus! {

/// The bytes of a section: each item written after the ones before it,
/// by an encoder that may look at the items already written.
pub open spec fn section_bytes<T>(items: Seq<T>, enc: spec_fn(T, Seq<T>) -> Seq<u8>) -> Seq<u8>
    decreases items.len(),
{
    if items.len() == 0 {
        seq![]
    } else {
        section_bytes(items.drop_last(), enc) + enc(items.last(), items.drop_last())
    }
}

/// What reading `n` items from the front of `s` gives: the items and
/// the bytes after them, or the first error met.
pub open spec fn spec_decode_section<T>(
    s: Seq<u8>,
    n: nat,
    dec: spec_fn(Seq<u8>, Seq<T>) -> Result<(T, Seq<u8>), CodecError>,
) -> Result<(Seq<T>, Seq<u8>), CodecError>
    decreases n,
{
    if n == 0 {
        Ok((seq![], s))
    } else {
        match spec_decode_section(s, (n - 1) as nat, dec) {
            Err(e) => Err(e),
            Ok((items, rest)) => match dec(rest, items) {
                Err(e) => Err(e),
                Ok((x, rest2)) => Ok((items.push(x), rest2)),
            },
        }
    }
}

/// Reading `i + 1` items unfolds into reading `i` and then one more.
pub proof fn lemma_section_step<T>(
    s: Seq<u8>,
    i: nat,
    dec: spec_fn(Seq<u8>, Seq<T>) -> Result<(T, Seq<u8>), CodecError>,
)
    ensures
        spec_decode_section(s, i + 1, dec) == match spec_decode_section(s, i, dec) {
            Err(e) => Err(e),
            Ok((items, rest)) => match dec(rest, items) {
                Err(e) => Err(e),
                Ok((x, rest2)) => Ok((items.push(x), rest2)),
            },
        },
{
    assert(((i + 1) - 1) as nat == i);
}

/// Once reading a section fails, reading more of it fails the same way.
pub proof fn lemma_section_err_persists<T>(
    s: Seq<u8>,
    i: nat,
    n: nat,
    dec: spec_fn(Seq<u8>, Seq<T>) -> Result<(T, Seq<u8>), CodecError>,
)
    requires
        i <= n,
        spec_decode_section(s, i, dec) is Err,
    ensures
        spec_decode_section(s, n, dec) == spec_decode_section(s, i, dec),
    decreases n,
{
    if n > i {
        lemma_section_err_persists(s, i, (n - 1) as nat, dec);
        lemma_section_step(s, (n - 1) as nat, dec);
    }
}

/// A section fails only as its item decoder fails: where that decoder
/// fails only for want of bytes, so does the section.
pub proof fn lemma_section_fails_short<T>(
    s: Seq<u8>,
    n: nat,
    dec: spec_fn(Seq<u8>, Seq<T>) -> Result<(T, Seq<u8>), CodecError>,
)
    requires
        forall|s2: Seq<u8>, before: Seq<T>|
            #[trigger] dec(s2, before) is Err ==> dec(s2, before)->Err_0 == CodecError::Short,
    ensures
        spec_decode_section(s, n, dec) is Err ==> spec_decode_section(s, n, dec)->Err_0 == CodecError::Short,
    decreases n,
{
    if n > 0 {
        lemma_section_fails_short(s, (n - 1) as nat, dec);
    }
}

/// How a read of the first `k` of `len` bytes compares with the read of
/// all of them that gave `full`: where the full read took `c` bytes, the
/// cut read gives the same value and the first `k - c` bytes of the rest
/// when `k >= c`, and fails when `k < c`.
pub open spec fn prefix_result<T>(
    full: Result<(T, Seq<u8>), CodecError>,
    len: nat,
    k: nat,
    cut: Result<(T, Seq<u8>), CodecError>,
) -> bool {
    match full {
        Err(_) => true,
        Ok((x, r)) => {
            &&& r.len() <= len
            &&& if k >= len - r.len() {
                cut == Ok::<(T, Seq<u8>), CodecError>((x, r.take(k - (len - r.len()))))
            } else {
                cut is Err
            }
        },
    }
}

/// A section read on the first `k` bytes behaves as `prefix_result`
/// says, given an item decoder that does.
pub proof fn lemma_section_prefix<T>(
    s: Seq<u8>,
    n: nat,
    k: nat,
    dec: spec_fn(Seq<u8>, Seq<T>) -> Result<(T, Seq<u8>), CodecError>,
)
    requires
        k <= s.len(),
        forall|s2: Seq<u8>, before: Seq<T>, k2: nat|
            k2 <= s2.len() ==> prefix_result(
                #[trigger] dec(s2, before),
                s2.len(),
                k2,
                #[trigger] dec(s2.take(k2 as int), before),
            ),
    ensures
        prefix_result(spec_decode_section(s, n, dec), s.len(), k, spec_decode_section(s.take(k as int), n, dec)),
    decreases n,
{
    let t = s.take(k as int);
    if n == 0 {
        assert(spec_decode_section(s, n, dec) == Ok::<(Seq<T>, Seq<u8>), CodecError>((seq![], s)));
        assert(spec_decode_section(t, n, dec) == Ok::<(Seq<T>, Seq<u8>), CodecError>((seq![], t)));
        assert(s.take(k - (s.len() - s.len())) == t);
        assert(prefix_result(spec_decode_section(s, n, dec), s.len(), k, spec_decode_section(t, n, dec)));
    } else {
        let m = (n - 1) as nat;
        lemma_section_prefix(s, m, k, dec);
        lemma_section_step(s, m, dec);
        lemma_section_step(t, m, dec);
        assert(m + 1 == n);
        match spec_decode_section(s, m, dec) {
            Err(_) => {
                assert(spec_decode_section(s, n, dec) is Err);
            },
            Ok((items, r1)) => {
                let c1 = (s.len() - r1.len()) as nat;
                if k >= c1 {
                    let k2 = (k - c1) as nat;
                    assert(spec_decode_section(t, m, dec) == Ok::<(Seq<T>, Seq<u8>), CodecError>(
                        (items, r1.take(k2 as int)),
                    ));
                    assert(prefix_result(dec(r1, items), r1.len(), k2, dec(r1.take(k2 as int), items)));
                    match dec(r1, items) {
                        Err(_) => {
                            assert(spec_decode_section(s, n, dec) is Err);
                        },
                        Ok((x, r2)) => {
                            assert(spec_decode_section(s, n, dec) == Ok::<(Seq<T>, Seq<u8>), CodecError>(
                                (items.push(x), r2),
                            ));
                            let c2 = (r1.len() - r2.len()) as nat;
                            if k2 >= c2 {
                                assert(dec(r1.take(k2 as int), items) == Ok::<(T, Seq<u8>), CodecError>(
                                    (x, r2.take(k2 - c2)),
                                ));
                                assert((k2 - c2) == k - (s.len() - r2.len()));
                                assert(prefix_result(spec_decode_section(s, n, dec), s.len(), k, spec_decode_section(t, n, dec)));
                            } else {
                                assert(dec(r1.take(k2 as int), items) is Err);
                                assert(spec_decode_section(t, n, dec) is Err);
                            }
                        },
                    }
                } else {
                    assert(prefix_result(dec(r1, items), r1.len(), 0, dec(r1.take(0), items)));
                    assert(spec_decode_section(t, m, dec) is Err);
                    assert(spec_decode_section(t, n, dec) is Err);
                }
            },
        }
    }
}

/// Reading a section back from its bytes gives the items and the bytes
/// after them, provided the item decoder undoes the item encoder.
pub proof fn lemma_section_round_trip<T>(
    items: Seq<T>,
    rest: Seq<u8>,
    enc: spec_fn(T, Seq<T>) -> Seq<u8>,
    dec: spec_fn(Seq<u8>, Seq<T>) -> Result<(T, Seq<u8>), CodecError>,
    wf: spec_fn(T) -> bool,
)
    requires
        forall|x: T, before: Seq<T>, r: Seq<u8>|
            wf(x) ==> #[trigger] dec(enc(x, before) + r, before) == Ok::<(T, Seq<u8>), CodecError>(
                (x, r),
            ),
        forall|i: int| 0 <= i < items.len() ==> wf(#[trigger] items[i]),
    ensures
        spec_decode_section(section_bytes(items, enc) + rest, items.len(), dec) == Ok::<
            (Seq<T>, Seq<u8>),
            CodecError,
        >((items, rest)),
    decreases items.len(),
{
    if items.len() == 0 {
        assert(items =~= seq![]);
        assert(section_bytes(items, enc) + rest =~= rest);
    } else {
        let init = items.drop_last();
        let one = enc(items.last(), init);
        assert(section_bytes(items, enc) + rest =~= section_bytes(init, enc) + (one + rest));
        assert forall|i: int| 0 <= i < init.len() implies wf(#[trigger] init[i]) by {
            assert(init[i] == items[i]);
        }
        lemma_section_round_trip(init, one + rest, enc, dec, wf);
        assert(wf(items[items.len() - 1]));
        assert(dec(one + rest, init) == Ok::<(T, Seq<u8>), CodecError>((items.last(), rest)));
        lemma_section_step(section_bytes(items, enc) + rest, init.len(), dec);
        assert(init.push(items.last()) =~= items);
    }
}

} // verus!
