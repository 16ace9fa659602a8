use vstd::prelude::*;

verus! {

/// The mathematical model of a bencode value: byte strings, signed integers,
/// lists, and dictionaries held as key-ordered sequences of entries.
pub enum Bval {
    Bytes(Seq<u8>),
    Int(int),
    List(Seq<Bval>),
    Dict(Seq<(Seq<u8>, Bval)>),
}

/// A bencode value as the codec handles it: the tag space is closed, so a
/// decoder must handle every variant and reject unknown leading bytes.
/// Dictionary entries are kept in ascending byte-lexicographic key order;
/// `dict_insert_entry` maintains that order on insertion.
#[derive(Debug)]
pub enum BencodeValue {
    ByteString(Vec<u8>),
    Integer(i64),
    List(Vec<BencodeValue>),
    Dict(Vec<(Vec<u8>, BencodeValue)>),
}

/// The model of an executable bencode value.
pub open spec fn model(v: BencodeValue) -> Bval
    decreases v, 0nat,
{
    match v {
        BencodeValue::ByteString(b) => Bval::Bytes(b@),
        BencodeValue::Integer(i) => Bval::Int(i as int),
        BencodeValue::List(l) => Bval::List(model_items(l@)),
        BencodeValue::Dict(d) => Bval::Dict(model_entries(d@)),
    }
}

/// The models of a list's items.
pub open spec fn model_items(l: Seq<BencodeValue>) -> Seq<Bval>
    decreases l, 1nat,
{
    if l.len() == 0 {
        Seq::<Bval>::empty()
    } else {
        seq![model(l[0])] + model_items(l.drop_first())
    }
}

/// The models of a dictionary's entries.
pub open spec fn model_entries(d: Seq<(Vec<u8>, BencodeValue)>) -> Seq<(Seq<u8>, Bval)>
    decreases d, 1nat,
{
    if d.len() == 0 {
        Seq::<(Seq<u8>, Bval)>::empty()
    } else {
        seq![(d[0].0@, model(d[0].1))] + model_entries(d.drop_first())
    }
}

impl View for BencodeValue {
    type V = Bval;

    open spec fn view(&self) -> Bval {
        model(*self)
    }
}

/// `model_items` maps the model over the items one for one.
pub proof fn lemma_model_items(l: Seq<BencodeValue>)
    ensures
        model_items(l).len() == l.len(),
        forall|i: int| 0 <= i < l.len() ==> model_items(l)[i] == model(#[trigger] l[i]),
    decreases l.len(),
{
    if l.len() > 0 {
        lemma_model_items(l.drop_first());
        assert forall|i: int| 0 <= i < l.len() implies model_items(l)[i] == model(
            #[trigger] l[i],
        ) by {
            if i > 0 {
                assert(l.drop_first()[i - 1] == l[i]);
            }
        }
    }
}

/// `model_entries` maps the model over the entries one for one.
pub proof fn lemma_model_entries(d: Seq<(Vec<u8>, BencodeValue)>)
    ensures
        model_entries(d).len() == d.len(),
        forall|i: int| 0 <= i < d.len() ==> model_entries(d)[i] == (
            #[trigger] d[i].0@,
            model(d[i].1),
        ),
    decreases d.len(),
{
    if d.len() > 0 {
        lemma_model_entries(d.drop_first());
        assert forall|i: int| 0 <= i < d.len() implies model_entries(d)[i] == (
            #[trigger] d[i].0@,
            model(d[i].1),
        ) by {
            if i > 0 {
                assert(d.drop_first()[i - 1] == d[i]);
            }
        }
    }
}

/// Strict byte-lexicographic order on keys: the order in which canonical
/// bencode serializes dictionary entries.
pub open spec fn key_lt(a: Seq<u8>, b: Seq<u8>) -> bool
    decreases a.len(),
{
    if b.len() == 0 {
        false
    } else if a.len() == 0 {
        true
    } else if a[0] < b[0] {
        true
    } else if a[0] > b[0] {
        false
    } else {
        key_lt(a.drop_first(), b.drop_first())
    }
}

/// Entries sorted strictly ascending by key; in particular all keys distinct.
pub open spec fn entries_sorted(d: Seq<(Seq<u8>, Bval)>) -> bool {
    forall|i: int, j: int| 0 <= i < j < d.len() ==> key_lt(#[trigger] d[i].0, #[trigger] d[j].0)
}

/// A value is well formed when every integer fits in a signed 64-bit word and
/// every dictionary holds its entries in strictly ascending key order.
pub open spec fn wf(v: Bval) -> bool
    decreases v,
{
    match v {
        Bval::Bytes(_) => true,
        Bval::Int(i) => i64::MIN <= i <= i64::MAX,
        Bval::List(l) => forall|i: int| 0 <= i < l.len() ==> wf(#[trigger] l[i]),
        Bval::Dict(d) => entries_sorted(d) && forall|i: int|
            0 <= i < d.len() ==> wf(#[trigger] d[i].1),
    }
}

/// The decimal digits of a natural number, most significant first, with no
/// leading zeros (a lone `0` for zero).
pub open spec fn dec_u(n: nat) -> Seq<u8>
    decreases n,
{
    if n < 10 {
        seq![(48 + n) as u8]
    } else {
        dec_u(n / 10) + seq![(48 + n % 10) as u8]
    }
}

/// The decimal form of a signed integer: a leading `-` for negatives.
pub open spec fn dec_i(i: int) -> Seq<u8> {
    if i < 0 {
        seq![45u8] + dec_u((-i) as nat)
    } else {
        dec_u(i as nat)
    }
}

/// The canonical bencode encoding of a value. Dictionary entries are written
/// in the order they are held, which for well-formed values is ascending
/// byte-lexicographic key order: the form whose SHA-1 is the info-hash.
pub open spec fn spec_encode(v: Bval) -> Seq<u8>
    decreases v, 0nat,
{
    match v {
        Bval::Bytes(b) => dec_u(b.len()) + seq![58u8] + b,
        Bval::Int(i) => seq![105u8] + dec_i(i) + seq![101u8],
        Bval::List(l) => seq![108u8] + encode_items(l) + seq![101u8],
        Bval::Dict(d) => seq![100u8] + encode_pairs(d) + seq![101u8],
    }
}

/// The concatenated encodings of a list's items.
pub open spec fn encode_items(l: Seq<Bval>) -> Seq<u8>
    decreases l, 1nat,
{
    if l.len() == 0 {
        Seq::<u8>::empty()
    } else {
        spec_encode(l[0]) + encode_items(l.drop_first())
    }
}

/// The concatenated `key value` encodings of a dictionary's entries.
pub open spec fn encode_pairs(d: Seq<(Seq<u8>, Bval)>) -> Seq<u8>
    decreases d, 1nat,
{
    if d.len() == 0 {
        Seq::<u8>::empty()
    } else {
        dec_u(d[0].0.len()) + seq![58u8] + d[0].0 + spec_encode(d[0].1) + encode_pairs(
            d.drop_first(),
        )
    }
}

/// Insertion into a key-ordered entry sequence: before the first larger key,
/// replacing an equal key.
pub open spec fn dict_insert(d: Seq<(Seq<u8>, Bval)>, k: Seq<u8>, v: Bval) -> Seq<
    (Seq<u8>, Bval),
>
    decreases d.len(),
{
    if d.len() == 0 {
        seq![(k, v)]
    } else if key_lt(k, d[0].0) {
        seq![(k, v)] + d
    } else if k == d[0].0 {
        seq![(k, v)] + d.drop_first()
    } else {
        seq![d[0]] + dict_insert(d.drop_first(), k, v)
    }
}

/// Left fold of `dict_insert` over a sequence of entries in arrival order.
pub open spec fn dict_insert_all(acc: Seq<(Seq<u8>, Bval)>, ps: Seq<(Seq<u8>, Bval)>) -> Seq<
    (Seq<u8>, Bval),
>
    decreases ps.len(),
{
    if ps.len() == 0 {
        acc
    } else {
        dict_insert_all(dict_insert(acc, ps[0].0, ps[0].1), ps.drop_first())
    }
}

/// The key order is asymmetric.
pub proof fn lemma_key_lt_asym(a: Seq<u8>, b: Seq<u8>)
    ensures
        key_lt(a, b) ==> !key_lt(b, a),
    decreases a.len(),
{
    if a.len() > 0 && b.len() > 0 && a[0] == b[0] {
        lemma_key_lt_asym(a.drop_first(), b.drop_first());
    }
}

/// Keys that compare neither way are equal: the order is connex.
pub proof fn lemma_key_lt_connex(a: Seq<u8>, b: Seq<u8>)
    ensures
        !key_lt(a, b) && !key_lt(b, a) ==> a == b,
    decreases a.len(),
{
    if !key_lt(a, b) && !key_lt(b, a) {
        if a.len() > 0 && b.len() > 0 {
            lemma_key_lt_connex(a.drop_first(), b.drop_first());
            assert(a =~= seq![a[0]] + a.drop_first());
            assert(b =~= seq![b[0]] + b.drop_first());
        } else {
            assert(a =~= b);
        }
    }
}

/// The key order is transitive.
pub proof fn lemma_key_lt_trans(a: Seq<u8>, b: Seq<u8>, c: Seq<u8>)
    ensures
        key_lt(a, b) && key_lt(b, c) ==> key_lt(a, c),
    decreases a.len(),
{
    if key_lt(a, b) && key_lt(b, c) {
        if a.len() > 0 && b.len() > 0 && c.len() > 0 && a[0] == b[0] && b[0] == c[0] {
            lemma_key_lt_trans(a.drop_first(), b.drop_first(), c.drop_first());
        }
    }
}

/// Inserting behind a chain of strictly smaller keys appends at the end.
pub proof fn lemma_dict_insert_append(d: Seq<(Seq<u8>, Bval)>, k: Seq<u8>, v: Bval)
    requires
        forall|i: int| 0 <= i < d.len() ==> key_lt(#[trigger] d[i].0, k),
    ensures
        dict_insert(d, k, v) == d + seq![(k, v)],
    decreases d.len(),
{
    if d.len() == 0 {
        assert(dict_insert(d, k, v) =~= d + seq![(k, v)]);
    } else {
        lemma_key_lt_asym(d[0].0, k);
        assert(forall|i: int|
            0 <= i < d.drop_first().len() ==> key_lt(#[trigger] d.drop_first()[i].0, k));
        lemma_dict_insert_append(d.drop_first(), k, v);
        assert(seq![d[0]] + (d.drop_first() + seq![(k, v)]) =~= d + seq![(k, v)]);
    }
}

/// Where the new key is placed by position: before the first key not smaller
/// than it, replacing it when equal.
pub proof fn lemma_dict_insert_at(d: Seq<(Seq<u8>, Bval)>, k: Seq<u8>, v: Bval, n: int)
    requires
        0 <= n <= d.len(),
        forall|i: int| 0 <= i < n ==> key_lt(#[trigger] d[i].0, k),
        n < d.len() ==> !key_lt(d[n].0, k),
    ensures
        n < d.len() && d[n].0 == k ==> dict_insert(d, k, v) == d.update(n, (k, v)),
        !(n < d.len() && d[n].0 == k) ==> dict_insert(d, k, v) == d.subrange(0, n) + seq![(k, v)]
            + d.subrange(n, d.len() as int),
    decreases d.len(),
{
    if n == 0 {
        if d.len() == 0 {
            assert(dict_insert(d, k, v) =~= d.subrange(0, 0) + seq![(k, v)] + d.subrange(
                0,
                d.len() as int,
            ));
        } else if d[0].0 == k {
            assert(dict_insert(d, k, v) =~= d.update(0, (k, v)));
        } else {
            lemma_key_lt_connex(k, d[0].0);
            assert(key_lt(k, d[0].0));
            assert(dict_insert(d, k, v) =~= d.subrange(0, 0) + seq![(k, v)] + d.subrange(
                0,
                d.len() as int,
            ));
        }
    } else {
        lemma_key_lt_asym(d[0].0, k);
        assert(forall|i: int|
            0 <= i < n - 1 ==> key_lt(#[trigger] d.drop_first()[i].0, k)) by {
            assert(forall|i: int|
                0 <= i < n - 1 ==> d.drop_first()[i] == d[i + 1]);
        }
        lemma_dict_insert_at(d.drop_first(), k, v, n - 1);
        if n < d.len() && d[n].0 == k {
            assert(d.drop_first()[n - 1] == d[n]);
            assert(seq![d[0]] + d.drop_first().update(n - 1, (k, v)) =~= d.update(n, (k, v)));
        } else {
            assert(seq![d[0]] + (d.drop_first().subrange(0, n - 1) + seq![(k, v)]
                + d.drop_first().subrange(n - 1, d.drop_first().len() as int)) =~= d.subrange(0, n)
                + seq![(k, v)] + d.subrange(n, d.len() as int));
        }
    }
}

/// Insertion keeps the entries sorted, and introduces no entry but the new
/// one: every entry of the result is the inserted pair or an entry of the
/// input.
pub proof fn lemma_dict_insert_sorted(d: Seq<(Seq<u8>, Bval)>, k: Seq<u8>, v: Bval)
    requires
        entries_sorted(d),
    ensures
        entries_sorted(dict_insert(d, k, v)),
        forall|j: int| 0 <= j < dict_insert(d, k, v).len() ==> (#[trigger] dict_insert(
            d,
            k,
            v,
        )[j] == (k, v) || exists|i: int| 0 <= i < d.len() && dict_insert(d, k, v)[j] == d[i]),
    decreases d.len(),
{
    let r = dict_insert(d, k, v);
    if d.len() == 0 {
    } else if key_lt(k, d[0].0) {
        assert forall|i: int, j: int| 0 <= i < j < r.len() implies key_lt(
            #[trigger] r[i].0,
            #[trigger] r[j].0,
        ) by {
            if i == 0 {
                if j > 1 {
                    lemma_key_lt_trans(k, d[0].0, d[j - 1].0);
                }
            }
        }
    } else if k == d[0].0 {
        assert forall|i: int, j: int| 0 <= i < j < r.len() implies key_lt(
            #[trigger] r[i].0,
            #[trigger] r[j].0,
        ) by {}
        assert forall|j: int| 0 <= j < r.len() implies (#[trigger] r[j] == (k, v) || exists|i: int|
            0 <= i < d.len() && r[j] == d[i]) by {
            if j > 0 {
                assert(r[j] == d[j]);
            }
        }
    } else {
        lemma_key_lt_connex(k, d[0].0);
        assert(key_lt(d[0].0, k));
        assert(entries_sorted(d.drop_first())) by {
            assert(forall|i: int, j: int|
                0 <= i < j < d.drop_first().len() ==> key_lt(
                    #[trigger] d.drop_first()[i].0,
                    #[trigger] d.drop_first()[j].0,
                )) by {
                assert(forall|i: int|
                    0 <= i < d.drop_first().len() ==> d.drop_first()[i] == d[i + 1]);
            }
        }
        lemma_dict_insert_sorted(d.drop_first(), k, v);
        let rr = dict_insert(d.drop_first(), k, v);
        assert forall|i: int, j: int| 0 <= i < j < r.len() implies key_lt(
            #[trigger] r[i].0,
            #[trigger] r[j].0,
        ) by {
            if i == 0 {
                assert(r[j] == rr[j - 1]);
                if rr[j - 1] == (k, v) {
                } else {
                    let w = choose|w: int|
                        0 <= w < d.drop_first().len() && rr[j - 1] == d.drop_first()[w];
                    assert(d.drop_first()[w] == d[w + 1]);
                }
            }
        }
        assert forall|j: int| 0 <= j < r.len() implies (#[trigger] r[j] == (k, v) || exists|i: int|
            0 <= i < d.len() && r[j] == d[i]) by {
            if j == 0 {
                assert(r[0] == d[0]);
            } else {
                assert(r[j] == rr[j - 1]);
                if rr[j - 1] != (k, v) {
                    let w = choose|w: int|
                        0 <= w < d.drop_first().len() && rr[j - 1] == d.drop_first()[w];
                    assert(d.drop_first()[w] == d[w + 1]);
                }
            }
        }
    }
}

/// Linear lookup of a key among a dictionary's entries.
pub open spec fn dict_lookup(d: Seq<(Seq<u8>, Bval)>, k: Seq<u8>) -> Option<Bval>
    decreases d.len(),
{
    if d.len() == 0 {
        None
    } else if d[0].0 == k {
        Some(d[0].1)
    } else {
        dict_lookup(d.drop_first(), k)
    }
}

/// Folding one more entry into an accumulated dictionary.
pub proof fn lemma_dict_insert_all_snoc(
    acc: Seq<(Seq<u8>, Bval)>,
    ps: Seq<(Seq<u8>, Bval)>,
    p: (Seq<u8>, Bval),
)
    ensures
        dict_insert_all(acc, ps.push(p)) == dict_insert(dict_insert_all(acc, ps), p.0, p.1),
    decreases ps.len(),
{
    let q = ps.push(p);
    if ps.len() == 0 {
        assert(q[0] == p);
        assert(q.drop_first() =~= Seq::<(Seq<u8>, Bval)>::empty());
        assert(dict_insert_all(acc, q) == dict_insert_all(
            dict_insert(acc, q[0].0, q[0].1),
            q.drop_first(),
        ));
    } else {
        assert(q[0] == ps[0]);
        assert(q.drop_first() =~= ps.drop_first().push(p));
        lemma_dict_insert_all_snoc(dict_insert(acc, ps[0].0, ps[0].1), ps.drop_first(), p);
        assert(dict_insert_all(acc, q) == dict_insert_all(
            dict_insert(acc, q[0].0, q[0].1),
            q.drop_first(),
        ));
        assert(dict_insert_all(acc, ps) == dict_insert_all(
            dict_insert(acc, ps[0].0, ps[0].1),
            ps.drop_first(),
        ));
    }
}

/// Folding already-sorted entries into a sorted accumulator with smaller keys
/// concatenates them: canonical input passes through insertion unchanged.
pub proof fn lemma_dict_insert_all_sorted(acc: Seq<(Seq<u8>, Bval)>, d: Seq<(Seq<u8>, Bval)>)
    requires
        entries_sorted(acc + d),
    ensures
        dict_insert_all(acc, d) == acc + d,
    decreases d.len(),
{
    if d.len() == 0 {
        assert(acc + d =~= acc);
    } else {
        let k = d[0].0;
        let v = d[0].1;
        assert forall|i: int| 0 <= i < acc.len() implies key_lt(#[trigger] acc[i].0, k) by {
            assert((acc + d)[i] == acc[i]);
            assert((acc + d)[acc.len() as int] == d[0]);
        }
        lemma_dict_insert_append(acc, k, v);
        assert((acc + seq![(k, v)]) + d.drop_first() =~= acc + d);
        lemma_dict_insert_all_sorted(acc + seq![(k, v)], d.drop_first());
        assert(dict_insert_all(acc, d) == dict_insert_all(dict_insert(acc, k, v), d.drop_first()))
            by {
            assert(d[0] == (k, v));
        }
    }
}

/// Canonical ordering: inserting two entries with different keys into a
/// sorted dictionary gives the same dictionary in either insertion order, so
/// the canonical encoding is identical regardless of how it was built.
pub proof fn lemma_dict_insert_comm(
    d: Seq<(Seq<u8>, Bval)>,
    k1: Seq<u8>,
    v1: Bval,
    k2: Seq<u8>,
    v2: Bval,
)
    requires
        k1 != k2,
        entries_sorted(d),
    ensures
        dict_insert(dict_insert(d, k1, v1), k2, v2) == dict_insert(dict_insert(d, k2, v2), k1, v1),
    decreases d.len(),
{
    reveal_with_fuel(dict_insert, 4);
    lemma_key_lt_connex(k1, k2);
    lemma_key_lt_asym(k1, k2);
    lemma_key_lt_asym(k2, k1);
    if d.len() == 0 {
        if key_lt(k2, k1) {
            assert((seq![(k1, v1)]).drop_first() =~= Seq::<(Seq<u8>, Bval)>::empty());
            assert(dict_insert(dict_insert(d, k1, v1), k2, v2) =~= seq![(k2, v2), (k1, v1)]);
            assert((seq![(k2, v2)]).drop_first() =~= Seq::<(Seq<u8>, Bval)>::empty());
            assert(dict_insert(dict_insert(d, k2, v2), k1, v1) =~= seq![(k2, v2), (k1, v1)]);
        } else {
            assert(key_lt(k1, k2));
            assert((seq![(k1, v1)]).drop_first() =~= Seq::<(Seq<u8>, Bval)>::empty());
            assert(dict_insert(dict_insert(d, k1, v1), k2, v2) =~= seq![(k1, v1), (k2, v2)]);
            assert((seq![(k2, v2)]).drop_first() =~= Seq::<(Seq<u8>, Bval)>::empty());
            assert(dict_insert(dict_insert(d, k2, v2), k1, v1) =~= seq![(k1, v1), (k2, v2)]);
        }
    } else {
        let h = d[0];
        let hk = h.0;
        lemma_key_lt_connex(k1, hk);
        lemma_key_lt_asym(k1, hk);
        lemma_key_lt_asym(hk, k1);
        lemma_key_lt_connex(k2, hk);
        lemma_key_lt_asym(k2, hk);
        lemma_key_lt_asym(hk, k2);
        lemma_key_lt_trans(k1, hk, k2);
        lemma_key_lt_trans(k2, hk, k1);
        lemma_key_lt_trans(k1, k2, hk);
        lemma_key_lt_trans(k2, k1, hk);
        lemma_key_lt_trans(hk, k1, k2);
        lemma_key_lt_trans(hk, k2, k1);
        let dd = d.drop_first();
        assert(entries_sorted(dd)) by {
            assert(forall|i: int| 0 <= i < dd.len() ==> #[trigger] dd[i] == d[i + 1]);
        }
        assert(seq![h] + dd =~= d);
        if key_lt(k1, hk) {
            let a = seq![(k1, v1)] + d;
            assert(dict_insert(d, k1, v1) == a);
            assert(a[0] == (k1, v1));
            assert(a.drop_first() =~= d);
            if key_lt(k2, k1) {
                assert(dict_insert(a, k2, v2) =~= seq![(k2, v2)] + a);
                let b = seq![(k2, v2)] + d;
                assert(dict_insert(d, k2, v2) == b);
                assert(b[0] == (k2, v2));
                assert(b.drop_first() =~= d);
                assert(dict_insert(b, k1, v1) =~= seq![(k2, v2)] + (seq![(k1, v1)] + d));
                assert(seq![(k2, v2)] + (seq![(k1, v1)] + d) =~= seq![(k2, v2)] + a);
            } else {
                assert(key_lt(k1, k2));
                assert(dict_insert(a, k2, v2) =~= seq![(k1, v1)] + dict_insert(d, k2, v2));
                let b = dict_insert(d, k2, v2);
                if key_lt(k2, hk) {
                    assert(b == seq![(k2, v2)] + d);
                    assert(b[0] == (k2, v2));
                    assert(dict_insert(b, k1, v1) =~= seq![(k1, v1)] + b);
                } else if k2 == hk {
                    assert(b == seq![(k2, v2)] + dd);
                    assert(b[0] == (k2, v2));
                    assert(dict_insert(b, k1, v1) =~= seq![(k1, v1)] + b);
                } else {
                    assert(key_lt(hk, k2));
                    assert(b == seq![h] + dict_insert(dd, k2, v2));
                    assert(b[0] == h);
                    assert(dict_insert(b, k1, v1) =~= seq![(k1, v1)] + b);
                }
            }
        } else if k1 == hk {
            let a = seq![(k1, v1)] + dd;
            assert(dict_insert(d, k1, v1) == a);
            assert(a[0] == (k1, v1));
            assert(a.drop_first() =~= dd);
            assert(key_lt(k1, k2) || key_lt(k2, k1));
            if key_lt(k2, k1) {
                assert(dict_insert(a, k2, v2) =~= seq![(k2, v2)] + a);
                let b = seq![(k2, v2)] + d;
                assert(dict_insert(d, k2, v2) == b);
                assert(b[0] == (k2, v2));
                assert(b.drop_first() =~= d);
                assert(dict_insert(b, k1, v1) =~= seq![(k2, v2)] + (seq![(k1, v1)] + dd));
                assert(seq![(k2, v2)] + (seq![(k1, v1)] + dd) =~= seq![(k2, v2)] + a);
            } else {
                assert(key_lt(k1, k2));
                assert(dict_insert(a, k2, v2) =~= seq![(k1, v1)] + dict_insert(dd, k2, v2));
                let b = seq![h] + dict_insert(dd, k2, v2);
                assert(dict_insert(d, k2, v2) == b);
                assert(b[0] == h);
                assert(b.drop_first() =~= dict_insert(dd, k2, v2));
                assert(dict_insert(b, k1, v1) =~= seq![(k1, v1)] + dict_insert(dd, k2, v2));
            }
        } else {
            assert(key_lt(hk, k1));
            let a = seq![h] + dict_insert(dd, k1, v1);
            assert(dict_insert(d, k1, v1) == a);
            assert(a[0] == h);
            assert(a.drop_first() =~= dict_insert(dd, k1, v1));
            if key_lt(k2, hk) {
                assert(dict_insert(a, k2, v2) =~= seq![(k2, v2)] + a);
                let b = seq![(k2, v2)] + d;
                assert(dict_insert(d, k2, v2) == b);
                assert(b[0] == (k2, v2));
                assert(b.drop_first() =~= d);
                assert(dict_insert(b, k1, v1) =~= seq![(k2, v2)] + dict_insert(d, k1, v1));
            } else if k2 == hk {
                assert(dict_insert(a, k2, v2) =~= seq![(k2, v2)] + dict_insert(dd, k1, v1));
                let b = seq![(k2, v2)] + dd;
                assert(dict_insert(d, k2, v2) == b);
                assert(b[0] == (k2, v2));
                assert(b.drop_first() =~= dd);
                assert(dict_insert(b, k1, v1) =~= seq![(k2, v2)] + dict_insert(dd, k1, v1));
            } else {
                assert(key_lt(hk, k2));
                lemma_dict_insert_comm(dd, k1, v1, k2, v2);
                assert(dict_insert(a, k2, v2) =~= seq![h] + dict_insert(
                    dict_insert(dd, k1, v1),
                    k2,
                    v2,
                ));
                let b = seq![h] + dict_insert(dd, k2, v2);
                assert(dict_insert(d, k2, v2) == b);
                assert(b[0] == h);
                assert(b.drop_first() =~= dict_insert(dd, k2, v2));
                assert(dict_insert(b, k1, v1) =~= seq![h] + dict_insert(
                    dict_insert(dd, k2, v2),
                    k1,
                    v1,
                ));
            }
        }
    }
}

/// Canonical ordering at the byte level: a dictionary built by inserting
/// two differently-keyed entries encodes identically in either insertion
/// order.
pub proof fn lemma_encode_insert_comm(
    d: Seq<(Seq<u8>, Bval)>,
    k1: Seq<u8>,
    v1: Bval,
    k2: Seq<u8>,
    v2: Bval,
)
    requires
        k1 != k2,
        entries_sorted(d),
    ensures
        spec_encode(Bval::Dict(dict_insert(dict_insert(d, k1, v1), k2, v2))) == spec_encode(
            Bval::Dict(dict_insert(dict_insert(d, k2, v2), k1, v1)),
        ),
{
    lemma_dict_insert_comm(d, k1, v1, k2, v2);
}

/// The outcome of comparing two keys.
#[derive(PartialEq, Eq, Structural, Clone, Copy, Debug)]
pub enum KeyOrd {
    Less,
    Equal,
    Greater,
}

/// Three-way byte-lexicographic comparison of two keys.
pub fn key_cmp(a: &Vec<u8>, b: &Vec<u8>) -> (r: KeyOrd)
    ensures
        (r == KeyOrd::Less) == key_lt(a@, b@),
        (r == KeyOrd::Equal) == (a@ == b@),
        (r == KeyOrd::Greater) == key_lt(b@, a@),
{
    let alen: usize = a.len();
    let blen: usize = b.len();
    let min: usize = if alen < blen {
        alen
    } else {
        blen
    };
    let mut i: usize = 0;
    proof {
        assert(a@.skip(0) =~= a@);
        assert(b@.skip(0) =~= b@);
        assert(a@.subrange(0, 0) =~= b@.subrange(0, 0));
    }
    while i < min
        invariant
            0 <= i <= min,
            min <= a@.len(),
            min <= b@.len(),
            min == if a@.len() < b@.len() {
                a@.len()
            } else {
                b@.len()
            },
            key_lt(a@, b@) == key_lt(a@.skip(i as int), b@.skip(i as int)),
            key_lt(b@, a@) == key_lt(b@.skip(i as int), a@.skip(i as int)),
            a@.subrange(0, i as int) == b@.subrange(0, i as int),
        decreases min - i,
    {
        let x = a[i];
        let y = b[i];
        if x < y {
            proof {
                assert(a@.skip(i as int)[0] == x);
                assert(b@.skip(i as int)[0] == y);
                assert(key_lt(a@.skip(i as int), b@.skip(i as int)));
                assert(a@ != b@) by {
                    assert(a@[i as int] != b@[i as int]);
                }
            }
            return KeyOrd::Less;
        }
        if x > y {
            proof {
                assert(a@.skip(i as int)[0] == x);
                assert(b@.skip(i as int)[0] == y);
                assert(key_lt(b@.skip(i as int), a@.skip(i as int)));
                assert(a@ != b@) by {
                    assert(a@[i as int] != b@[i as int]);
                }
            }
            return KeyOrd::Greater;
        }
        proof {
            assert(a@.skip(i as int).drop_first() =~= a@.skip(i as int + 1));
            assert(b@.skip(i as int).drop_first() =~= b@.skip(i as int + 1));
            assert(a@.skip(i as int)[0] == a@[i as int]);
            assert(b@.skip(i as int)[0] == b@[i as int]);
            assert(a@.subrange(0, i as int + 1) =~= b@.subrange(0, i as int + 1));
        }
        i = i + 1;
    }
    proof {
        assert(a@.skip(min as int).len() == a@.len() - min);
        assert(b@.skip(min as int).len() == b@.len() - min);
    }
    if alen == blen {
        proof {
            assert(a@ =~= b@);
        }
        KeyOrd::Equal
    } else if alen < blen {
        proof {
            assert(key_lt(a@.skip(min as int), b@.skip(min as int)));
            assert(a@ != b@) by {
                assert(a@.len() != b@.len());
            }
        }
        KeyOrd::Less
    } else {
        proof {
            assert(key_lt(b@.skip(min as int), a@.skip(min as int)));
            assert(a@ != b@) by {
                assert(a@.len() != b@.len());
            }
        }
        KeyOrd::Greater
    }
}

/// The first position whose key is not smaller than the probe key.
fn find_insert_pos(entries: &Vec<(Vec<u8>, BencodeValue)>, key: &Vec<u8>) -> (n: usize)
    ensures
        n <= entries@.len(),
        forall|i: int| 0 <= i < n ==> key_lt(#[trigger] entries@[i].0@, key@),
        n < entries@.len() ==> !key_lt(entries@[n as int].0@, key@),
{
    let mut n: usize = 0;
    while n < entries.len()
        invariant
            0 <= n <= entries@.len(),
            forall|i: int| 0 <= i < n ==> key_lt(#[trigger] entries@[i].0@, key@),
        decreases entries@.len() - n,
    {
        let c = key_cmp(&entries[n].0, key);
        if c != KeyOrd::Less {
            proof {
                lemma_key_lt_asym(key@, entries@[n as int].0@);
            }
            return n;
        }
        n = n + 1;
    }
    n
}

/// Inserts an entry into a dictionary's entry vector, keeping the entries in
/// ascending byte-lexicographic key order and replacing an equal key.
pub fn dict_insert_entry(
    entries: &mut Vec<(Vec<u8>, BencodeValue)>,
    key: Vec<u8>,
    value: BencodeValue,
)
    ensures
        model_entries(final(entries)@) == dict_insert(
            model_entries(old(entries)@),
            key@,
            model(value),
        ),
{
    let ghost d0 = model_entries(old(entries)@);
    let n = find_insert_pos(entries, &key);
    proof {
        lemma_model_entries(entries@);
        assert forall|i: int| 0 <= i < n implies key_lt(#[trigger] d0[i].0, key@) by {
            assert(d0[i] == (entries@[i].0@, model(entries@[i].1)));
        }
        if n < entries@.len() {
            assert(d0[n as int] == (entries@[n as int].0@, model(entries@[n as int].1)));
        }
        lemma_dict_insert_at(d0, key@, model(value), n as int);
    }
    let mut replace = false;
    if n < entries.len() {
        let c = key_cmp(&entries[n].0, &key);
        if c == KeyOrd::Equal {
            replace = true;
        }
    }
    if replace {
        let _ = entries.remove(n);
        entries.insert(n, (key, value));
        proof {
            lemma_model_entries(entries@);
            let dn = model_entries(entries@);
            let tgt = d0.update(n as int, (key@, model(value)));
            assert forall|j: int| 0 <= j < dn.len() implies dn[j] == tgt[j] by {
                assert(dn[j] == (entries@[j].0@, model(entries@[j].1)));
                if j != n {
                    assert(d0[j] == (old(entries)@[j].0@, model(old(entries)@[j].1)));
                    assert(entries@[j] == old(entries)@[j]);
                }
            }
            assert(dn =~= tgt);
        }
    } else {
        entries.insert(n, (key, value));
        proof {
            lemma_model_entries(entries@);
            let dn = model_entries(entries@);
            let tgt = d0.subrange(0, n as int) + seq![(key@, model(value))] + d0.subrange(
                n as int,
                d0.len() as int,
            );
            assert forall|j: int| 0 <= j < dn.len() implies dn[j] == tgt[j] by {
                assert(dn[j] == (entries@[j].0@, model(entries@[j].1)));
                if j < n {
                    assert(d0[j] == (old(entries)@[j].0@, model(old(entries)@[j].1)));
                    assert(entries@[j] == old(entries)@[j]);
                    assert(tgt[j] == d0[j]);
                } else if j > n {
                    assert(d0[j - 1] == (old(entries)@[j - 1].0@, model(old(entries)@[j - 1].1)));
                    assert(entries@[j] == old(entries)@[j - 1]);
                    assert(tgt[j] == d0[j - 1]);
                }
            }
            assert(dn =~= tgt);
        }
    }
}

/// Linear search for a key among a dictionary's entries.
#[verifier::loop_isolation(false)]
pub fn dict_get<'a>(d: &'a Vec<(Vec<u8>, BencodeValue)>, key: &Vec<u8>) -> (r: Option<
    &'a BencodeValue,
>)
    ensures
        (match r {
            Some(v) => dict_lookup(model_entries(d@), key@) == Some(v@),
            None => dict_lookup(model_entries(d@), key@) is None,
        }),
{
    proof {
        lemma_model_entries(d@);
        assert(model_entries(d@).skip(0) =~= model_entries(d@));
    }
    let mut i: usize = 0;
    while i < d.len()
        invariant
            0 <= i <= d@.len(),
            dict_lookup(model_entries(d@), key@) == dict_lookup(
                model_entries(d@).skip(i as int),
                key@,
            ),
        decreases d@.len() - i,
    {
        let c = key_cmp(&d[i].0, key);
        proof {
            assert(model_entries(d@).skip(i as int)[0] == model_entries(d@)[i as int]);
            assert(model_entries(d@)[i as int] == (d@[i as int].0@, model(d@[i as int].1)));
        }
        if c == KeyOrd::Equal {
            return Some(&d[i].1);
        }
        proof {
            assert(model_entries(d@).skip(i as int).drop_first() =~= model_entries(d@).skip(
                i as int + 1,
            ));
        }
        i = i + 1;
    }
    None
}

/// Structural copy of a value, equal to the original in the model.
#[verifier::loop_isolation(false)]
fn deep_clone(v: &BencodeValue) -> (r: BencodeValue)
    ensures
        r@ == v@,
    decreases v,
{
    match v {
        BencodeValue::ByteString(b) => BencodeValue::ByteString(b.clone()),
        BencodeValue::Integer(x) => BencodeValue::Integer(*x),
        BencodeValue::List(l) => {
            let mut items: Vec<BencodeValue> = Vec::new();
            let mut k: usize = 0;
            while k < l.len()
                invariant
                    0 <= k <= l@.len(),
                    items@.len() == k,
                    forall|t: int| 0 <= t < k ==> model(#[trigger] items@[t]) == model(l@[t]),
                decreases l@.len() - k,
            {
                proof {
                    assert(*v == BencodeValue::List(*l));
                    assert(decreases_to!(*v => (*v)->List_0));
                    assert(decreases_to!(*l => l@));
                    assert(decreases_to!(l@ => l@[k as int]));
                }
                let c = deep_clone(&l[k]);
                items.push(c);
                k = k + 1;
            }
            let r = BencodeValue::List(items);
            proof {
                lemma_model_items(items@);
                lemma_model_items(l@);
                assert forall|t: int|
                    0 <= t < model_items(items@).len() implies model_items(items@)[t]
                    == model_items(l@)[t] by {
                    assert(model_items(items@)[t] == model(items@[t]));
                    assert(model_items(l@)[t] == model(l@[t]));
                }
                assert(model_items(items@) =~= model_items(l@));
            }
            r
        },
        BencodeValue::Dict(d) => {
            let mut entries: Vec<(Vec<u8>, BencodeValue)> = Vec::new();
            let mut k: usize = 0;
            while k < d.len()
                invariant
                    0 <= k <= d@.len(),
                    entries@.len() == k,
                    forall|t: int| 0 <= t < k ==> (#[trigger] entries@[t]).0@ == d@[t].0@ && model(
                        entries@[t].1,
                    ) == model(d@[t].1),
                decreases d@.len() - k,
            {
                proof {
                    assert(*v == BencodeValue::Dict(*d));
                    assert(decreases_to!(*v => (*v)->Dict_0));
                    assert(decreases_to!(*d => d@));
                    assert(decreases_to!(d@ => d@[k as int]));
                    assert(decreases_to!(d@[k as int] => d@[k as int].1));
                }
                let ck = d[k].0.clone();
                let cv = deep_clone(&d[k].1);
                entries.push((ck, cv));
                k = k + 1;
            }
            let r = BencodeValue::Dict(entries);
            proof {
                lemma_model_entries(entries@);
                lemma_model_entries(d@);
                assert forall|t: int|
                    0 <= t < model_entries(entries@).len() implies model_entries(entries@)[t]
                    == model_entries(d@)[t] by {
                    assert(model_entries(entries@)[t] == (entries@[t].0@, model(entries@[t].1)));
                    assert(model_entries(d@)[t] == (d@[t].0@, model(d@[t].1)));
                }
                assert(model_entries(entries@) =~= model_entries(d@));
            }
            r
        },
    }
}

/// Structural copy of a dictionary's entry vector, equal in the model.
#[verifier::loop_isolation(false)]
pub fn clone_entries(d: &Vec<(Vec<u8>, BencodeValue)>) -> (r: Vec<(Vec<u8>, BencodeValue)>)
    ensures
        model_entries(r@) == model_entries(d@),
{
    let mut entries: Vec<(Vec<u8>, BencodeValue)> = Vec::new();
    let mut k: usize = 0;
    while k < d.len()
        invariant
            0 <= k <= d@.len(),
            entries@.len() == k,
            forall|t: int| 0 <= t < k ==> (#[trigger] entries@[t]).0@ == d@[t].0@ && model(
                entries@[t].1,
            ) == model(d@[t].1),
        decreases d@.len() - k,
    {
        let ck = d[k].0.clone();
        let cv = deep_clone(&d[k].1);
        entries.push((ck, cv));
        k = k + 1;
    }
    proof {
        lemma_model_entries(entries@);
        lemma_model_entries(d@);
        assert forall|t: int|
            0 <= t < model_entries(entries@).len() implies model_entries(entries@)[t]
            == model_entries(d@)[t] by {
            assert(model_entries(entries@)[t] == (entries@[t].0@, model(entries@[t].1)));
            assert(model_entries(d@)[t] == (d@[t].0@, model(d@[t].1)));
        }
        assert(model_entries(entries@) =~= model_entries(d@));
    }
    entries
}

impl Clone for BencodeValue {
    /// A copy equal to the original in the model.
    fn clone(&self) -> (r: Self)
        ensures
            r@ == self@,
    {
        deep_clone(self)
    }
}

} // verus!
