use vstd::pervasive::VecAdditionalExecFns;
use vstd::prelude::*;

verus! {

/// Metric labels are modelled by the UTF-8 bytes of their keys and values:
/// the wire hands them over as strings, and the lexicographic order the
/// entries are kept in is the order of those byte sequences.
pub open spec fn str_bytes(s: Seq<char>) -> Seq<u8> {
    vstd::utf8::encode_utf8(s)
}

/// A label list as specification data: `(key bytes, value bytes)` pairs.
pub open spec fn lpair(p: (String, String)) -> (Seq<u8>, Seq<u8>) {
    (str_bytes(p.0@), str_bytes(p.1@))
}

pub open spec fn lview(v: Seq<(String, String)>) -> Seq<(Seq<u8>, Seq<u8>)> {
    v.map_values(|p: (String, String)| lpair(p))
}

/// Strict lexicographic order on byte sequences.
pub open spec fn bytes_lt(a: Seq<u8>, b: Seq<u8>) -> bool
    decreases b.len(),
{
    if b.len() == 0 {
        false
    } else if a.len() == 0 {
        true
    } else if a[0] < b[0] {
        true
    } else if a[0] > b[0] {
        false
    } else {
        bytes_lt(a.drop_first(), b.drop_first())
    }
}

pub proof fn lemma_lt_irrefl(a: Seq<u8>)
    ensures
        !bytes_lt(a, a),
    decreases a.len(),
{
    if a.len() > 0 {
        lemma_lt_irrefl(a.drop_first());
    }
}

pub proof fn lemma_lt_asym(a: Seq<u8>, b: Seq<u8>)
    requires
        bytes_lt(a, b),
    ensures
        !bytes_lt(b, a),
        a != b,
    decreases a.len() + b.len(),
{
    if b.len() > 0 && a.len() > 0 && a[0] == b[0] {
        lemma_lt_asym(a.drop_first(), b.drop_first());
        assert(a != b) by {
            if a =~= b {
                assert(a.drop_first() =~= b.drop_first());
            }
        }
    } else {
        if a.len() == 0 {
            assert(a != b);
        }
    }
}

pub proof fn lemma_lt_trans(a: Seq<u8>, b: Seq<u8>, c: Seq<u8>)
    requires
        bytes_lt(a, b),
        bytes_lt(b, c),
    ensures
        bytes_lt(a, c),
    decreases a.len() + b.len() + c.len(),
{
    if a.len() > 0 && b.len() > 0 && c.len() > 0 && a[0] == b[0] && b[0] == c[0] {
        lemma_lt_trans(a.drop_first(), b.drop_first(), c.drop_first());
    }
}

pub proof fn lemma_lt_total(a: Seq<u8>, b: Seq<u8>)
    ensures
        bytes_lt(a, b) || bytes_lt(b, a) || a == b,
    decreases a.len() + b.len(),
{
    if a.len() > 0 && b.len() > 0 && a[0] == b[0] {
        lemma_lt_total(a.drop_first(), b.drop_first());
        if a.drop_first() == b.drop_first() {
            assert(a =~= seq![a[0]] + a.drop_first());
            assert(b =~= seq![b[0]] + b.drop_first());
        }
    }
}

/// Keys strictly increase along the list: sorted, and therefore unique.
pub open spec fn sorted_unique(s: Seq<(Seq<u8>, Seq<u8>)>) -> bool {
    forall|i: int, j: int| 0 <= i < j < s.len() ==> bytes_lt(s[i].0, s[j].0)
}

/// The value bound to `k`, searching from the front.
pub open spec fn lookup(s: Seq<(Seq<u8>, Seq<u8>)>, k: Seq<u8>) -> Option<Seq<u8>>
    decreases s.len(),
{
    if s.len() == 0 {
        None
    } else if s[0].0 == k {
        Some(s[0].1)
    } else {
        lookup(s.drop_first(), k)
    }
}

/// The value bound to `k` by the *last* pair of an input list naming it:
/// later entries of a wire label list override earlier ones.
pub open spec fn last_value(s: Seq<(Seq<u8>, Seq<u8>)>, k: Seq<u8>) -> Option<Seq<u8>>
    decreases s.len(),
{
    if s.len() == 0 {
        None
    } else if s.last().0 == k {
        Some(s.last().1)
    } else {
        last_value(s.drop_last(), k)
    }
}

/// Insert `(k, v)` into a key-sorted list: replace the pair with key `k`
/// if one exists, otherwise splice at the ordered position.
pub open spec fn spec_upsert(s: Seq<(Seq<u8>, Seq<u8>)>, k: Seq<u8>, v: Seq<u8>) -> Seq<
    (Seq<u8>, Seq<u8>),
>
    decreases s.len(),
{
    if s.len() == 0 {
        seq![(k, v)]
    } else if s[0].0 == k {
        seq![(k, v)] + s.drop_first()
    } else if bytes_lt(k, s[0].0) {
        seq![(k, v)] + s
    } else {
        seq![s[0]] + spec_upsert(s.drop_first(), k, v)
    }
}

/// Fold of `spec_upsert` over an input list, front to back.
pub open spec fn spec_merge(
    acc: Seq<(Seq<u8>, Seq<u8>)>,
    ins: Seq<(Seq<u8>, Seq<u8>)>,
) -> Seq<(Seq<u8>, Seq<u8>)>
    decreases ins.len(),
{
    if ins.len() == 0 {
        acc
    } else {
        spec_merge(spec_upsert(acc, ins[0].0, ins[0].1), ins.drop_first())
    }
}

pub proof fn lemma_upsert_props(s: Seq<(Seq<u8>, Seq<u8>)>, k: Seq<u8>, v: Seq<u8>)
    requires
        sorted_unique(s),
    ensures
        sorted_unique(spec_upsert(s, k, v)),
        lookup(spec_upsert(s, k, v), k) == Some(v),
        forall|k2: Seq<u8>| k2 != k ==> #[trigger] lookup(spec_upsert(s, k, v), k2) == lookup(
            s,
            k2,
        ),
    decreases s.len(),
{
    let r = spec_upsert(s, k, v);
    if s.len() == 0 {
        assert(r =~= seq![(k, v)]);
        assert(r.drop_first() =~= Seq::<(Seq<u8>, Seq<u8>)>::empty());
        assert(r[0] == (k, v));
        assert forall|k2: Seq<u8>| k2 != k implies #[trigger] lookup(r, k2) == lookup(s, k2) by {
            assert(lookup(r, k2) == lookup(r.drop_first(), k2));
        }
    } else if s[0].0 == k {
        assert(r =~= seq![(k, v)] + s.drop_first());
        assert(r.drop_first() =~= s.drop_first());
        assert(r[0] == (k, v));
        assert forall|k2: Seq<u8>| k2 != k implies #[trigger] lookup(r, k2) == lookup(s, k2) by {
            assert(lookup(r, k2) == lookup(s.drop_first(), k2));
        }
        assert forall|i: int, j: int| 0 <= i < j < r.len() implies bytes_lt(
            r[i].0,
            r[j].0,
        ) by {
            if i == 0 {
                assert(bytes_lt(s[0].0, s[j].0));
            }
        }
    } else if bytes_lt(k, s[0].0) {
        assert(r =~= seq![(k, v)] + s);
        assert(r.drop_first() =~= s);
        assert(r[0] == (k, v));
        lemma_lt_asym(k, s[0].0);
        assert forall|i: int, j: int| 0 <= i < j < r.len() implies bytes_lt(
            r[i].0,
            r[j].0,
        ) by {
            if i == 0 {
                if j == 1 {
                } else {
                    lemma_lt_trans(k, s[0].0, s[(j - 1) as int].0);
                }
            }
        }
        assert forall|k2: Seq<u8>| k2 != k implies #[trigger] lookup(r, k2) == lookup(s, k2) by {
            assert(lookup(r, k2) == lookup(s, k2));
        }
    } else {
        lemma_lt_total(k, s[0].0);
        lemma_lt_asym(s[0].0, k);
        let sub = spec_upsert(s.drop_first(), k, v);
        assert(sorted_unique(s.drop_first())) by {
            assert(forall|i: int, j: int|
                0 <= i < j < s.drop_first().len() ==> bytes_lt(
                    s.drop_first()[i].0,
                    s.drop_first()[j].0,
                ));
        }
        lemma_upsert_props(s.drop_first(), k, v);
        assert(r =~= seq![s[0]] + sub);
        assert(r.drop_first() =~= sub);
        // every key in `sub` is either `k` or a key of `s.drop_first()`,
        // and `s[0].0` is below them all
        assert forall|i: int, j: int| 0 <= i < j < r.len() implies bytes_lt(
            r[i].0,
            r[j].0,
        ) by {
            if i == 0 {
                lemma_key_membership(s.drop_first(), k, v, (j - 1) as int);
                let kj = sub[j - 1].0;
                if kj == k {
                    assert(bytes_lt(s[0].0, k));
                } else {
                    let m = choose|m: int|
                        0 <= m < s.drop_first().len() && s.drop_first()[m].0 == kj;
                    assert(bytes_lt(s[0].0, s[m + 1].0));
                }
            }
        }
        assert(r[0] == s[0]);
        assert(lookup(r, k) == lookup(sub, k));
        assert forall|k2: Seq<u8>| k2 != k implies #[trigger] lookup(r, k2) == lookup(s, k2) by {
            assert(lookup(r, k2) == if s[0].0 == k2 {
                Some(s[0].1)
            } else {
                lookup(sub, k2)
            });
        }
    }
}

/// Every key of `spec_upsert(s, k, v)` is `k` or a key of `s`.
proof fn lemma_key_membership(s: Seq<(Seq<u8>, Seq<u8>)>, k: Seq<u8>, v: Seq<u8>, i: int)
    requires
        0 <= i < spec_upsert(s, k, v).len(),
    ensures
        spec_upsert(s, k, v)[i].0 == k || exists|m: int|
            0 <= m < s.len() && s[m].0 == spec_upsert(s, k, v)[i].0,
    decreases s.len(),
{
    let r = spec_upsert(s, k, v);
    if s.len() == 0 {
    } else if s[0].0 == k {
        if i > 0 {
            assert(r[i] == s.drop_first()[i - 1]);
            assert(s[i] == r[i]);
        }
    } else if bytes_lt(k, s[0].0) {
        if i > 0 {
            assert(r[i] == s[i - 1]);
        }
    } else {
        if i > 0 {
            lemma_key_membership(s.drop_first(), k, v, i - 1);
            let sub = spec_upsert(s.drop_first(), k, v);
            assert(r[i] == sub[i - 1]);
            if sub[i - 1].0 != k {
                let m = choose|m: int|
                    0 <= m < s.drop_first().len() && s.drop_first()[m].0 == sub[i - 1].0;
                assert(s[m + 1].0 == r[i].0);
            }
        }
    }
}

pub proof fn lemma_merge_props(acc: Seq<(Seq<u8>, Seq<u8>)>, ins: Seq<(Seq<u8>, Seq<u8>)>)
    requires
        sorted_unique(acc),
    ensures
        sorted_unique(spec_merge(acc, ins)),
        forall|k: Seq<u8>|
            #[trigger] lookup(spec_merge(acc, ins), k) == if last_value(ins, k) is Some {
                last_value(ins, k)
            } else {
                lookup(acc, k)
            },
    decreases ins.len(),
{
    if ins.len() == 0 {
    } else {
        let k0 = ins[0].0;
        let v0 = ins[0].1;
        lemma_upsert_props(acc, k0, v0);
        lemma_merge_props(spec_upsert(acc, k0, v0), ins.drop_first());
        assert forall|k: Seq<u8>| true implies #[trigger] lookup(spec_merge(acc, ins), k) == if last_value(
            ins,
            k,
        ) is Some {
            last_value(ins, k)
        } else {
            lookup(acc, k)
        } by {
            lemma_last_value_drop_first(ins, k);
        }
    }
}

/// Searching the tail of a list from the back either finds the same pair as
/// searching the whole list, or the key only occurs at the head.
proof fn lemma_last_value_drop_first(ins: Seq<(Seq<u8>, Seq<u8>)>, k: Seq<u8>)
    requires
        ins.len() > 0,
    ensures
        last_value(ins.drop_first(), k) is Some ==> last_value(ins, k) == last_value(
            ins.drop_first(),
            k,
        ),
        last_value(ins.drop_first(), k) is None && ins[0].0 == k ==> last_value(ins, k) == Some(
            ins[0].1,
        ),
        last_value(ins.drop_first(), k) is None && ins[0].0 != k ==> last_value(ins, k) is None,
    decreases ins.len(),
{
    if ins.len() == 1 {
        assert(ins.drop_first() =~= Seq::<(Seq<u8>, Seq<u8>)>::empty());
        assert(ins.last() == ins[0]);
    } else {
        assert(ins.drop_first().last() == ins.last());
        if ins.last().0 == k {
        } else {
            assert(ins.drop_last().len() > 0);
            assert(ins.drop_last().drop_first() =~= ins.drop_first().drop_last());
            lemma_last_value_drop_first(ins.drop_last(), k);
        }
    }
}

/// Two character sequences encode to the same bytes exactly when they are
/// the same sequence.
pub proof fn lemma_str_bytes_injective(x: Seq<char>, y: Seq<char>)
    ensures
        (str_bytes(x) == str_bytes(y)) == (x == y),
{
    if str_bytes(x) == str_bytes(y) {
        vstd::utf8::encode_utf8_decode_utf8(x);
        vstd::utf8::encode_utf8_decode_utf8(y);
    }
}

/// Outcome of a three-way comparison.
pub enum Cmp {
    Lt,
    Eq,
    Gt,
}

proof fn lemma_lex_prefix(a: Seq<u8>, b: Seq<u8>, i: int)
    requires
        0 <= i <= a.len(),
        i <= b.len(),
        a.subrange(0, i) == b.subrange(0, i),
    ensures
        bytes_lt(a, b) == bytes_lt(a.skip(i), b.skip(i)),
        (a == b) <==> (a.skip(i) =~= b.skip(i)),
    decreases i,
{
    if i == 0 {
        assert(a.skip(0) =~= a);
        assert(b.skip(0) =~= b);
        if a.skip(0) =~= b.skip(0) {
            assert(a =~= b);
        }
    } else {
        assert(a[0] == b[0]) by {
            assert(a.subrange(0, i)[0] == a[0]);
            assert(b.subrange(0, i)[0] == b[0]);
        }
        assert(a.drop_first().subrange(0, i - 1) =~= b.drop_first().subrange(0, i - 1)) by {
            assert forall|m: int| 0 <= m < i - 1 implies #[trigger] a.drop_first().subrange(
                0,
                i - 1,
            )[m] == b.drop_first().subrange(0, i - 1)[m] by {
                assert(a.drop_first().subrange(0, i - 1)[m] == a.drop_first()[m]);
                assert(a.drop_first()[m] == a[m + 1]);
                assert(b.drop_first().subrange(0, i - 1)[m] == b.drop_first()[m]);
                assert(b.drop_first()[m] == b[m + 1]);
                assert(a.subrange(0, i)[m + 1] == a[m + 1]);
                assert(b.subrange(0, i)[m + 1] == b[m + 1]);
            }
        }
        lemma_lex_prefix(a.drop_first(), b.drop_first(), i - 1);
        assert(a.drop_first().skip(i - 1) =~= a.skip(i));
        assert(b.drop_first().skip(i - 1) =~= b.skip(i));
        if a.skip(i) =~= b.skip(i) {
            assert(a.drop_first().skip(i - 1) =~= b.drop_first().skip(i - 1));
            assert(a.drop_first() == b.drop_first());
            assert forall|m: int| 0 <= m < a.len() implies a[m] == b[m] by {
                if m > 0 {
                    assert(a[m] == a.drop_first()[m - 1]);
                    assert(b[m] == b.drop_first()[m - 1]);
                }
            }
            assert(a =~= b);
        }
        if a == b {
            assert(a.skip(i) =~= b.skip(i));
        }
    }
}

/// Three-way comparison of two strings by their UTF-8 bytes.
pub fn str_cmp(a: &str, b: &str) -> (c: Cmp)
    ensures
        (c is Lt) == bytes_lt(str_bytes(a@), str_bytes(b@)),
        (c is Gt) == bytes_lt(str_bytes(b@), str_bytes(a@)),
        (c is Eq) == (str_bytes(a@) == str_bytes(b@)),
{
    let ab = a.as_bytes();
    let bb = b.as_bytes();
    let alen = ab.len();
    let blen = bb.len();
    let mut i: usize = 0;
    while i < alen && i < blen
        invariant
            alen == ab@.len(),
            blen == bb@.len(),
            ab@ == str_bytes(a@),
            bb@ == str_bytes(b@),
            i <= alen,
            i <= blen,
            ab@.subrange(0, i as int) == bb@.subrange(0, i as int),
        decreases alen - i,
    {
        let x = *vstd::slice::slice_index_get(ab, i);
        let y = *vstd::slice::slice_index_get(bb, i);
        if x < y {
            proof {
                lemma_lex_prefix(ab@, bb@, i as int);
                assert(ab@.skip(i as int)[0] == ab@[i as int]);
                assert(bb@.skip(i as int)[0] == bb@[i as int]);
                assert(bytes_lt(ab@, bb@));
                lemma_lt_asym(ab@, bb@);
            }
            return Cmp::Lt;
        }
        if x > y {
            proof {
                lemma_lex_prefix(ab@, bb@, i as int);
                lemma_lex_prefix(bb@, ab@, i as int);
                assert(ab@.skip(i as int)[0] == ab@[i as int]);
                assert(bb@.skip(i as int)[0] == bb@[i as int]);
                assert(bytes_lt(bb@, ab@));
                lemma_lt_asym(bb@, ab@);
            }
            return Cmp::Gt;
        }
        proof {
            assert(ab@.subrange(0, i + 1) =~= bb@.subrange(0, i + 1)) by {
                assert forall|m: int| 0 <= m < i + 1 implies #[trigger] ab@.subrange(0, i + 1)[m]
                    == bb@.subrange(0, i + 1)[m] by {
                    if m < i {
                        assert(ab@.subrange(0, i as int)[m] == bb@.subrange(0, i as int)[m]);
                    }
                }
            }
        }
        i += 1;
    }
    proof {
        lemma_lex_prefix(ab@, bb@, i as int);
    }
    if alen == blen {
        proof {
            assert(ab@.skip(i as int) =~= bb@.skip(i as int));
            lemma_lt_irrefl(ab@);
        }
        Cmp::Eq
    } else if alen < blen {
        proof {
            assert(ab@.skip(i as int).len() == 0);
            assert(bb@.skip(i as int).len() > 0);
            assert(bytes_lt(ab@, bb@));
            lemma_lt_asym(ab@, bb@);
        }
        Cmp::Lt
    } else {
        proof {
            lemma_lex_prefix(bb@, ab@, i as int);
            assert(bb@.skip(i as int).len() == 0);
            assert(ab@.skip(i as int).len() > 0);
            assert(bytes_lt(bb@, ab@));
            lemma_lt_asym(bb@, ab@);
        }
        Cmp::Gt
    }
}

/// `spec_upsert` walks past any prefix whose keys are all below `k`.
proof fn lemma_upsert_prefix(s: Seq<(Seq<u8>, Seq<u8>)>, k: Seq<u8>, v: Seq<u8>, i: int)
    requires
        0 <= i <= s.len(),
        forall|j: int| 0 <= j < i ==> bytes_lt(#[trigger] s[j].0, k),
    ensures
        spec_upsert(s, k, v) =~= s.subrange(0, i) + spec_upsert(s.skip(i), k, v),
    decreases i,
{
    if i == 0 {
        assert(s.skip(0) =~= s);
        assert(s.subrange(0, 0) =~= Seq::<(Seq<u8>, Seq<u8>)>::empty());
    } else {
        assert(bytes_lt(s[0].0, k));
        lemma_lt_asym(s[0].0, k);
        assert(s.len() > 0);
        assert(spec_upsert(s, k, v) == seq![s[0]] + spec_upsert(s.drop_first(), k, v));
        assert(forall|j: int|
            0 <= j < i - 1 ==> bytes_lt(#[trigger] s.drop_first()[j].0, k));
        lemma_upsert_prefix(s.drop_first(), k, v, i - 1);
        assert(s.drop_first().skip(i - 1) =~= s.skip(i));
        assert(seq![s[0]] + (s.drop_first().subrange(0, i - 1) + spec_upsert(s.skip(i), k, v))
            =~= s.subrange(0, i) + spec_upsert(s.skip(i), k, v));
    }
}

/// Replace the value under `k` in a key-sorted label list, or splice `(k, v)`
/// in at its ordered position.
#[verifier::loop_isolation(false)]
pub fn upsert(out: &mut Vec<(String, String)>, k: String, v: String)
    requires
        sorted_unique(lview(old(out)@)),
    ensures
        lview(final(out)@) == spec_upsert(lview(old(out)@), str_bytes(k@), str_bytes(v@)),
        sorted_unique(lview(final(out)@)),
{
    let ghost s = lview(old(out)@);
    let ghost kb = str_bytes(k@);
    let ghost vb = str_bytes(v@);
    proof {
        lemma_upsert_props(s, kb, vb);
    }
    let mut i: usize = 0;
    while i < out.len()
        invariant
            i <= out.len(),
            out@ == old(out)@,
            sorted_unique(s),
            s == lview(out@),
            forall|j: int| 0 <= j < i ==> bytes_lt(#[trigger] s[j].0, kb),
        decreases out.len() - i,
    {
        let pr: &(String, String) = vstd::slice::slice_index_get(out.as_slice(), i);
        let c = str_cmp(k.as_str(), pr.0.as_str());
        match c {
            Cmp::Eq => {
                proof {
                    assert(lview(out@)[i as int] == lpair(out@[i as int]));
                    assert(s[i as int] == lpair(out@[i as int]));
                    lemma_upsert_prefix(s, kb, vb, i as int);
                    assert(s.skip(i as int)[0] == s[i as int]);
                    assert(s[i as int].0 == kb);
                    assert(spec_upsert(s.skip(i as int), kb, vb) == seq![(kb, vb)] + s.skip(
                        i as int,
                    ).drop_first());
                }
                out.set(i, (k, v));
                proof {
                    assert(lview(out@) =~= spec_upsert(s, kb, vb)) by {
                        assert forall|m: int| 0 <= m < lview(out@).len() implies lview(out@)[m]
                            == spec_upsert(s, kb, vb)[m] by {
                            if m < i {
                                assert(spec_upsert(s, kb, vb)[m] == s.subrange(0, i as int)[m]);
                            } else if m > i {
                                assert(spec_upsert(s, kb, vb)[m] == s.skip(i as int).drop_first()[m
                                    - i - 1]);
                            }
                        }
                    }
                }
                return ;
            },
            Cmp::Lt => {
                proof {
                    assert(lview(out@)[i as int] == lpair(out@[i as int]));
                    assert(s[i as int] == lpair(out@[i as int]));
                    lemma_upsert_prefix(s, kb, vb, i as int);
                    assert(s.skip(i as int)[0] == s[i as int]);
                    lemma_lt_asym(kb, s[i as int].0);
                    assert(spec_upsert(s.skip(i as int), kb, vb) == seq![(kb, vb)] + s.skip(
                        i as int,
                    ));
                }
                out.insert(i, (k, v));
                proof {
                    assert(lview(out@) =~= spec_upsert(s, kb, vb)) by {
                        assert forall|m: int| 0 <= m < lview(out@).len() implies lview(out@)[m]
                            == spec_upsert(s, kb, vb)[m] by {
                            if m < i {
                                assert(spec_upsert(s, kb, vb)[m] == s.subrange(0, i as int)[m]);
                            } else if m > i {
                                assert(spec_upsert(s, kb, vb)[m] == s.skip(i as int)[m - i - 1]);
                            }
                        }
                    }
                }
                return ;
            },
            Cmp::Gt => {
                proof {
                    assert(lview(out@)[i as int] == lpair(out@[i as int]));
                    assert(s[i as int] == lpair(out@[i as int]));
                    assert(bytes_lt(s[i as int].0, kb));
                }
                i += 1;
            },
        }
    }
    proof {
        assert(s.len() == out@.len());
        lemma_upsert_prefix(s, kb, vb, s.len() as int);
        assert(s.skip(s.len() as int).len() == 0);
        assert(s.subrange(0, s.len() as int) =~= s);
    }
    out.push((k, v));
    proof {
        assert(lview(out@) =~= spec_upsert(s, kb, vb)) by {
            assert forall|m: int| 0 <= m < lview(out@).len() implies lview(out@)[m]
                == spec_upsert(s, kb, vb)[m] by {
                if m < s.len() {
                    assert(spec_upsert(s, kb, vb)[m] == s[m]);
                }
            }
        }
    }
}

/// Fold a wire label list into a key-sorted accumulator, later entries
/// overriding earlier ones.
#[verifier::loop_isolation(false)]
pub fn merge_into(out: &mut Vec<(String, String)>, ins: &Vec<(String, String)>)
    requires
        sorted_unique(lview(old(out)@)),
    ensures
        lview(final(out)@) == spec_merge(lview(old(out)@), lview(ins@)),
        sorted_unique(lview(final(out)@)),
{
    let ghost s0 = lview(old(out)@);
    let ghost insv = lview(ins@);
    proof {
        assert(insv.skip(0) =~= insv);
    }
    let mut i: usize = 0;
    while i < ins.len()
        invariant
            i <= ins.len(),
            insv == lview(ins@),
            sorted_unique(lview(out@)),
            spec_merge(s0, insv) == spec_merge(lview(out@), insv.skip(i as int)),
        decreases ins.len() - i,
    {
        let pr: &(String, String) = vstd::slice::slice_index_get(ins.as_slice(), i);
        let k = pr.0.clone();
        let v = pr.1.clone();
        proof {
            assert(insv.skip(i as int)[0] == insv[i as int]);
            assert(insv[i as int] == (str_bytes(k@), str_bytes(v@)));
            assert(insv.skip(i as int).drop_first() =~= insv.skip(i + 1));
        }
        upsert(out, k, v);
        i += 1;
    }
    proof {
        assert(insv.skip(ins@.len() as int).len() == 0);
    }
}

} // verus!
