//! The JSON value tree and its canonical form.
//!
//! A [`JsonValue`] carries numbers and strings as the exact bytes they were
//! read with, so canonicalization never rewrites a scalar. Canonicalization
//! re-orders every object's members by ascending byte-wise key order and
//! leaves array order untouched; [`sort_json`] is the executable transform,
//! specified against the mathematical [`canon`] below.

use vstd::prelude::*;

use crate::bytes_util::{lex_le, lex_le_bytes, copy_bytes};

verus! {

/// A JSON value. Numbers hold their exact literal text as bytes; strings hold
/// their (unescaped) UTF-8 bytes; objects hold members in insertion order.
#[derive(Debug, PartialEq, Eq)]
pub enum JsonValue {
    Null,
    Bool(bool),
    Number(Vec<u8>),
    Text(Vec<u8>),
    Array(Vec<JsonValue>),
    Object(Vec<(Vec<u8>, JsonValue)>),
}

/// The mathematical shape of a JSON value, used by every contract.
#[verifier::ext_equal]
pub enum JsonModel {
    Null,
    Bool(bool),
    Number(Seq<u8>),
    Text(Seq<u8>),
    Array(Seq<JsonModel>),
    Object(Seq<(Seq<u8>, JsonModel)>),
}

/// The model of a value: each vector abstracted to the sequence it holds.
pub open spec fn model(v: JsonValue) -> JsonModel
    decreases v,
{
    match v {
        JsonValue::Null => JsonModel::Null,
        JsonValue::Bool(b) => JsonModel::Bool(b),
        JsonValue::Number(n) => JsonModel::Number(n@),
        JsonValue::Text(s) => JsonModel::Text(s@),
        JsonValue::Array(elems) => JsonModel::Array(model_elems(elems@)),
        JsonValue::Object(members) => JsonModel::Object(model_members(members@)),
    }
}

pub open spec fn model_elems(s: Seq<JsonValue>) -> Seq<JsonModel>
    decreases s,
{
    if s.len() == 0 {
        Seq::empty()
    } else {
        seq![model(s[0])] + model_elems(s.drop_first())
    }
}

pub open spec fn model_members(s: Seq<(Vec<u8>, JsonValue)>) -> Seq<(Seq<u8>, JsonModel)>
    decreases s,
{
    if s.len() == 0 {
        Seq::empty()
    } else {
        seq![(s[0].0@, model(s[0].1))] + model_members(s.drop_first())
    }
}

impl View for JsonValue {
    type V = JsonModel;

    open spec fn view(&self) -> JsonModel {
        model(*self)
    }
}

/// `model_elems` is the pointwise image of `model`.
pub proof fn lemma_model_elems_index(s: Seq<JsonValue>)
    ensures
        model_elems(s).len() == s.len(),
        forall|i: int| 0 <= i < s.len() ==> #[trigger] model_elems(s)[i] == model(s[i]),
    decreases s,
{
    if s.len() > 0 {
        lemma_model_elems_index(s.drop_first());
        assert forall|i: int| 0 <= i < s.len() implies #[trigger] model_elems(s)[i] == model(
            s[i],
        ) by {
            if i > 0 {
                assert(model_elems(s)[i] == model_elems(s.drop_first())[i - 1]);
                assert(s.drop_first()[i - 1] == s[i]);
            }
        }
    }
}

/// `model_members` is the pointwise image of key view and value model.
pub proof fn lemma_model_members_index(s: Seq<(Vec<u8>, JsonValue)>)
    ensures
        model_members(s).len() == s.len(),
        forall|i: int| 0 <= i < s.len() ==> #[trigger] model_members(s)[i] == (
            s[i].0@,
            model(s[i].1),
        ),
    decreases s,
{
    if s.len() > 0 {
        lemma_model_members_index(s.drop_first());
        assert forall|i: int| 0 <= i < s.len() implies #[trigger] model_members(s)[i] == (
            s[i].0@,
            model(s[i].1),
        ) by {
            if i > 0 {
                assert(model_members(s)[i] == model_members(s.drop_first())[i - 1]);
                assert(s.drop_first()[i - 1] == s[i]);
            }
        }
    }
}

/// Inserts a member into a member sequence, before the first member whose key
/// it is `lex_le`; on a sorted sequence this keeps the sort, and a tie goes
/// before the members already present.
pub open spec fn insert_member(
    m: (Seq<u8>, JsonModel),
    s: Seq<(Seq<u8>, JsonModel)>,
) -> Seq<(Seq<u8>, JsonModel)>
    decreases s.len(),
{
    if s.len() == 0 {
        seq![m]
    } else if lex_le(m.0, s[0].0) {
        seq![m] + s
    } else {
        seq![s[0]] + insert_member(m, s.drop_first())
    }
}

/// Insertion sort of an object's members by ascending byte-wise key order.
pub open spec fn sort_members(s: Seq<(Seq<u8>, JsonModel)>) -> Seq<(Seq<u8>, JsonModel)>
    decreases s.len(),
{
    if s.len() == 0 {
        s
    } else {
        insert_member(s[0], sort_members(s.drop_first()))
    }
}

/// The canonical form of a JSON value: scalars unchanged, array order kept,
/// every object's members canonicalized and then sorted by key.
pub open spec fn canon(m: JsonModel) -> JsonModel
    decreases m,
{
    match m {
        JsonModel::Null => m,
        JsonModel::Bool(_) => m,
        JsonModel::Number(_) => m,
        JsonModel::Text(_) => m,
        JsonModel::Array(elems) => JsonModel::Array(canon_elems(elems)),
        JsonModel::Object(members) => JsonModel::Object(sort_members(canon_members(members))),
    }
}

pub open spec fn canon_elems(s: Seq<JsonModel>) -> Seq<JsonModel>
    decreases s,
{
    if s.len() == 0 {
        s
    } else {
        seq![canon(s[0])] + canon_elems(s.drop_first())
    }
}

pub open spec fn canon_members(s: Seq<(Seq<u8>, JsonModel)>) -> Seq<(Seq<u8>, JsonModel)>
    decreases s,
{
    if s.len() == 0 {
        s
    } else {
        seq![(s[0].0, canon(s[0].1))] + canon_members(s.drop_first())
    }
}

/// `canon_elems` is the pointwise image of `canon`.
pub proof fn lemma_canon_elems_index(s: Seq<JsonModel>)
    ensures
        canon_elems(s).len() == s.len(),
        forall|i: int| 0 <= i < s.len() ==> #[trigger] canon_elems(s)[i] == canon(s[i]),
    decreases s,
{
    if s.len() > 0 {
        lemma_canon_elems_index(s.drop_first());
        assert forall|i: int| 0 <= i < s.len() implies #[trigger] canon_elems(s)[i] == canon(
            s[i],
        ) by {
            if i > 0 {
                assert(canon_elems(s)[i] == canon_elems(s.drop_first())[i - 1]);
                assert(s.drop_first()[i - 1] == s[i]);
            }
        }
    }
}

/// `canon_members` keeps every key and canonicalizes every value in place.
pub proof fn lemma_canon_members_index(s: Seq<(Seq<u8>, JsonModel)>)
    ensures
        canon_members(s).len() == s.len(),
        forall|i: int| 0 <= i < s.len() ==> #[trigger] canon_members(s)[i] == (
            s[i].0,
            canon(s[i].1),
        ),
    decreases s,
{
    if s.len() > 0 {
        lemma_canon_members_index(s.drop_first());
        assert forall|i: int| 0 <= i < s.len() implies #[trigger] canon_members(s)[i] == (
            s[i].0,
            canon(s[i].1),
        ) by {
            if i > 0 {
                assert(canon_members(s)[i] == canon_members(s.drop_first())[i - 1]);
                assert(s.drop_first()[i - 1] == s[i]);
            }
        }
    }
}

fn insert_member_exec(m: (Vec<u8>, JsonValue), s: Vec<(Vec<u8>, JsonValue)>) -> (r: Vec<
    (Vec<u8>, JsonValue),
>)
    ensures
        model_members(r@) == insert_member((m.0@, model(m.1)), model_members(s@)),
    decreases s@.len(),
{
    let ghost mm = (m.0@, model(m.1));
    let ghost old_s = s@;
    proof {
        lemma_model_members_index(old_s);
    }
    if s.len() == 0 {
        let mut r: Vec<(Vec<u8>, JsonValue)> = Vec::new();
        r.push(m);
        proof {
            lemma_model_members_index(r@);
            assert(model_members(r@) =~= seq![mm]);
        }
        r
    } else if lex_le_bytes(&m.0, &s[0].0) {
        let mut r = s;
        r.insert(0, m);
        proof {
            lemma_model_members_index(r@);
            lemma_model_members_index(old_s);
            assert(r@.len() == old_s.len() + 1);
            assert forall|i: int| 0 <= i < r@.len() implies model_members(r@)[i] == (seq![mm]
                + model_members(old_s))[i] by {
                if i > 0 {
                    assert(r@[i] == old_s[i - 1]);
                }
            }
            assert(model_members(r@) =~= seq![mm] + model_members(old_s));
        }
        r
    } else {
        let mut s = s;
        let head = s.remove(0);
        proof {
            assert(s@ =~= old_s.drop_first());
        }
        let ghost head_model = (head.0@, model(head.1));
        let ghost tail_model = model_members(old_s.drop_first());
        let mut r = insert_member_exec(m, s);
        let ghost r1 = r@;
        r.insert(0, head);
        proof {
            assert(r@ =~= seq![head] + r1);
            lemma_model_members_index(r@);
            lemma_model_members_index(r1);
            assert forall|i: int| 0 <= i < r@.len() implies model_members(r@)[i] == (
            seq![head_model] + model_members(r1))[i] by {
                if i > 0 {
                    assert(r@[i] == r1[i - 1]);
                }
            }
            assert(model_members(r@) =~= seq![head_model] + model_members(r1));
            // the spec side takes the same branch: the new key is not
            // `lex_le` the head key
            assert(model_members(old_s)[0] == head_model);
            assert(!lex_le(mm.0, model_members(old_s)[0].0));
            assert(model_members(old_s).drop_first() =~= tail_model);
            assert(insert_member(mm, model_members(old_s)) == seq![head_model] + insert_member(
                mm,
                tail_model,
            ));
        }
        r
    }
}

/// Folds every member of `pending`, from the last to the first, into `acc` with
/// `insert_member`; `sort_members` is the instance with an empty `acc`.
pub open spec fn insert_all(
    pending: Seq<(Seq<u8>, JsonModel)>,
    acc: Seq<(Seq<u8>, JsonModel)>,
) -> Seq<(Seq<u8>, JsonModel)>
    decreases pending.len(),
{
    if pending.len() == 0 {
        acc
    } else {
        insert_all(pending.drop_last(), insert_member(pending.last(), acc))
    }
}

proof fn lemma_insert_all_push(
    pending: Seq<(Seq<u8>, JsonModel)>,
    m: (Seq<u8>, JsonModel),
    acc: Seq<(Seq<u8>, JsonModel)>,
)
    ensures
        insert_all(pending.push(m), acc) == insert_all(pending, insert_member(m, acc)),
{
    assert(pending.push(m).drop_last() =~= pending);
    assert(pending.push(m).last() == m);
}

proof fn lemma_insert_all_cons(
    x: (Seq<u8>, JsonModel),
    pending: Seq<(Seq<u8>, JsonModel)>,
    acc: Seq<(Seq<u8>, JsonModel)>,
)
    ensures
        insert_all(seq![x] + pending, acc) == insert_member(x, insert_all(pending, acc)),
    decreases pending.len(),
{
    let s = seq![x] + pending;
    assert(s.len() == 1 + pending.len());
    assert(insert_all(s, acc) == insert_all(s.drop_last(), insert_member(s.last(), acc)));
    if pending.len() == 0 {
        assert(s.drop_last() =~= Seq::<(Seq<u8>, JsonModel)>::empty());
        assert(s.last() == x);
        assert(insert_all(s.drop_last(), insert_member(x, acc)) == insert_member(x, acc));
        assert(insert_all(pending, acc) == acc);
    } else {
        assert(s.drop_last() =~= seq![x] + pending.drop_last());
        assert(s.last() == pending.last());
        lemma_insert_all_cons(x, pending.drop_last(), insert_member(pending.last(), acc));
        assert(insert_all(pending, acc) == insert_all(
            pending.drop_last(),
            insert_member(pending.last(), acc),
        ));
    }
}

/// Folding all members into an empty accumulator is exactly `sort_members`.
proof fn lemma_insert_all_eq_sort(s: Seq<(Seq<u8>, JsonModel)>)
    ensures
        insert_all(s, Seq::empty()) == sort_members(s),
    decreases s.len(),
{
    if s.len() > 0 {
        assert(s =~= seq![s[0]] + s.drop_first());
        lemma_insert_all_cons(s[0], s.drop_first(), Seq::empty());
        lemma_insert_all_eq_sort(s.drop_first());
    }
}

/// Recursively canonicalizes a JSON value: every object's members are
/// re-emitted in ascending byte-wise key order, array element order is kept,
/// and scalars come back unchanged.
pub fn sort_json(value: &JsonValue) -> (r: JsonValue)
    ensures
        r@ == canon((*value)@),
    decreases *value,
{
    match value {
        JsonValue::Null => JsonValue::Null,
        JsonValue::Bool(b) => JsonValue::Bool(*b),
        JsonValue::Number(n) => JsonValue::Number(copy_bytes(n)),
        JsonValue::Text(s) => JsonValue::Text(copy_bytes(s)),
        JsonValue::Array(elems) => {
            let mut out: Vec<JsonValue> = Vec::new();
            let mut i: usize = 0;
            while i < elems.len()
                invariant
                    i <= elems@.len(),
                    out@.len() == i,
                    *value == JsonValue::Array(*elems),
                    forall|j: int| 0 <= j < i ==> model(#[trigger] out@[j]) == canon(
                        model(elems@[j]),
                    ),
                decreases elems@.len() - i,
            {
                proof {
                    let va = *value;
                    assert(va->Array_0 == *elems);
                    assert(decreases_to!(va => va->Array_0));
                    assert(decreases_to!(*elems => elems@));
                    assert(decreases_to!(elems@ => elems@[i as int]));
                }
                let e = sort_json(&elems[i]);
                out.push(e);
                i = i + 1;
            }
            let r = JsonValue::Array(out);
            proof {
                lemma_model_elems_index(elems@);
                lemma_canon_elems_index(model_elems(elems@));
                lemma_model_elems_index(out@);
                assert(model_elems(out@) =~= canon_elems(model_elems(elems@)));
            }
            r
        },
        JsonValue::Object(members) => {
            let mut canoned: Vec<(Vec<u8>, JsonValue)> = Vec::new();
            let mut i: usize = 0;
            while i < members.len()
                invariant
                    i <= members@.len(),
                    canoned@.len() == i,
                    *value == JsonValue::Object(*members),
                    forall|j: int| 0 <= j < i ==> (#[trigger] canoned@[j]).0@ == members@[j].0@
                        && model(canoned@[j].1) == canon(model(members@[j].1)),
                decreases members@.len() - i,
            {
                let key = copy_bytes(&members[i].0);
                proof {
                    let vo = *value;
                    assert(vo->Object_0 == *members);
                    assert(decreases_to!(vo => vo->Object_0));
                    assert(decreases_to!(*members => members@));
                    assert(decreases_to!(members@ => members@[i as int]));
                    assert(decreases_to!(members@[i as int] => members@[i as int].1));
                }
                let val = sort_json(&members[i].1);
                canoned.push((key, val));
                i = i + 1;
            }
            proof {
                lemma_model_members_index(canoned@);
                lemma_canon_members_index(model_members(members@));
                lemma_model_members_index(members@);
                assert(model_members(canoned@) =~= canon_members(model_members(members@)));
                lemma_insert_all_eq_sort(canon_members(model_members(members@)));
            }
            let mut sorted: Vec<(Vec<u8>, JsonValue)> = Vec::new();
            let mut rest = canoned;
            // Insertion sort, folding members in from the rear, so that the
            // executable result matches `sort_members` member for member.
            while rest.len() > 0
                invariant
                    insert_all(model_members(rest@), model_members(sorted@)) == sort_members(
                        canon_members(model_members(members@)),
                    ),
                decreases rest@.len(),
            {
                let ghost old_rest = rest@;
                let ghost old_sorted = sorted@;
                let m = rest.pop().unwrap();
                let ghost mm = (m.0@, model(m.1));
                proof {
                    assert(rest@ =~= old_rest.drop_last());
                    lemma_model_members_index(old_rest);
                    lemma_model_members_index(rest@);
                    assert(model_members(rest@) =~= model_members(old_rest).drop_last());
                    assert(model_members(old_rest).drop_last().push(mm) =~= model_members(
                        old_rest,
                    ));
                    lemma_insert_all_push(
                        model_members(rest@),
                        mm,
                        model_members(old_sorted),
                    );
                }
                sorted = insert_member_exec(m, sorted);
            }
            let r = JsonValue::Object(sorted);
            proof {
                assert(model_members(rest@) =~= Seq::<(Seq<u8>, JsonModel)>::empty());
                assert(insert_all(model_members(rest@), model_members(sorted@)) == model_members(
                    sorted@,
                ));
            }
            r
        },
    }
}

/// Members are in ascending byte-wise key order.
pub open spec fn is_sorted(s: Seq<(Seq<u8>, JsonModel)>) -> bool {
    forall|i: int, j: int| 0 <= i < j < s.len() ==> lex_le(s[i].0, s[j].0)
}

/// No two members share a key.
pub open spec fn unique_keys(s: Seq<(Seq<u8>, JsonModel)>) -> bool {
    forall|i: int, j: int| 0 <= i < j < s.len() ==> s[i].0 != s[j].0
}

/// Members are in strictly ascending byte-wise key order.
pub open spec fn strictly_sorted(s: Seq<(Seq<u8>, JsonModel)>) -> bool {
    is_sorted(s) && unique_keys(s)
}

/// A value in canonical form: every object's members sorted by key, at every
/// nesting level.
pub open spec fn canonical(m: JsonModel) -> bool
    decreases m,
{
    match m {
        JsonModel::Null => true,
        JsonModel::Bool(_) => true,
        JsonModel::Number(_) => true,
        JsonModel::Text(_) => true,
        JsonModel::Array(elems) => forall|i: int|
            0 <= i < elems.len() ==> canonical(#[trigger] elems[i]),
        JsonModel::Object(members) => is_sorted(members) && forall|i: int|
            0 <= i < members.len() ==> canonical(#[trigger] members[i].1),
    }
}

/// A well-formed value: no object holds two members with the same key, at any
/// nesting level. Every value read from a JSON text is of this shape.
pub open spec fn wf_json(m: JsonModel) -> bool
    decreases m,
{
    match m {
        JsonModel::Null => true,
        JsonModel::Bool(_) => true,
        JsonModel::Number(_) => true,
        JsonModel::Text(_) => true,
        JsonModel::Array(elems) => forall|i: int|
            0 <= i < elems.len() ==> wf_json(#[trigger] elems[i]),
        JsonModel::Object(members) => unique_keys(members) && forall|i: int|
            0 <= i < members.len() ==> wf_json(#[trigger] members[i].1),
    }
}

/// Every element of `insert_member(m, s)` is `m` or an element of `s`.
proof fn lemma_insert_member_elements(m: (Seq<u8>, JsonModel), s: Seq<(Seq<u8>, JsonModel)>)
    ensures
        insert_member(m, s).len() == s.len() + 1,
        forall|i: int|
            0 <= i < insert_member(m, s).len() ==> (#[trigger] insert_member(m, s)[i] == m
                || exists|k: int| 0 <= k < s.len() && insert_member(m, s)[i] == s[k]),
    decreases s.len(),
{
    if s.len() == 0 {
    } else if lex_le(m.0, s[0].0) {
        let r = seq![m] + s;
        assert forall|i: int| 0 <= i < r.len() implies (#[trigger] r[i] == m || exists|k: int|
            0 <= k < s.len() && r[i] == s[k]) by {
            if i > 0 {
                assert(r[i] == s[i - 1]);
            }
        }
    } else {
        lemma_insert_member_elements(m, s.drop_first());
        let t = insert_member(m, s.drop_first());
        let r = seq![s[0]] + t;
        assert forall|i: int| 0 <= i < r.len() implies (#[trigger] r[i] == m || exists|k: int|
            0 <= k < s.len() && r[i] == s[k]) by {
            if i == 0 {
                assert(r[0] == s[0]);
            } else {
                assert(r[i] == t[i - 1]);
                if t[i - 1] != m {
                    let k = choose|k: int|
                        0 <= k < s.drop_first().len() && t[i - 1] == s.drop_first()[k];
                    assert(s.drop_first()[k] == s[k + 1]);
                }
            }
        }
    }
}

/// Inserting into a sorted member sequence keeps it sorted.
proof fn lemma_insert_preserves_sorted(m: (Seq<u8>, JsonModel), s: Seq<(Seq<u8>, JsonModel)>)
    requires
        is_sorted(s),
    ensures
        is_sorted(insert_member(m, s)),
    decreases s.len(),
{
    if s.len() == 0 {
    } else if lex_le(m.0, s[0].0) {
        let r = seq![m] + s;
        assert forall|i: int, j: int| 0 <= i < j < r.len() implies lex_le(r[i].0, r[j].0) by {
            if i == 0 {
                assert(r[j] == s[j - 1]);
                if j > 1 {
                    assert(lex_le(s[0].0, s[j - 1].0));
                    crate::bytes_util::lemma_lex_le_trans(m.0, s[0].0, s[j - 1].0);
                }
            } else {
                assert(r[i] == s[i - 1]);
                assert(r[j] == s[j - 1]);
            }
        }
    } else {
        crate::bytes_util::lemma_lex_le_total(m.0, s[0].0);
        assert(forall|i: int, j: int|
            0 <= i < j < s.drop_first().len() ==> lex_le(
                #[trigger] s.drop_first()[i].0,
                #[trigger] s.drop_first()[j].0,
            ));
        lemma_insert_preserves_sorted(m, s.drop_first());
        let t = insert_member(m, s.drop_first());
        lemma_insert_member_elements(m, s.drop_first());
        let r = seq![s[0]] + t;
        assert forall|i: int, j: int| 0 <= i < j < r.len() implies lex_le(r[i].0, r[j].0) by {
            if i == 0 {
                assert(r[j] == t[j - 1]);
                if t[j - 1] == m {
                    assert(lex_le(s[0].0, m.0));
                } else {
                    let k = choose|k: int|
                        0 <= k < s.drop_first().len() && t[j - 1] == s.drop_first()[k];
                    assert(s.drop_first()[k] == s[k + 1]);
                    assert(lex_le(s[0].0, s[k + 1].0));
                }
            } else {
                assert(r[i] == t[i - 1]);
                assert(r[j] == t[j - 1]);
            }
        }
    }
}

/// `sort_members` sorts.
proof fn lemma_sort_members_sorted(s: Seq<(Seq<u8>, JsonModel)>)
    ensures
        is_sorted(sort_members(s)),
    decreases s.len(),
{
    if s.len() > 0 {
        lemma_sort_members_sorted(s.drop_first());
        lemma_insert_preserves_sorted(s[0], sort_members(s.drop_first()));
    }
}

/// Sorting an already sorted member sequence gives it back unchanged.
proof fn lemma_sort_of_sorted(s: Seq<(Seq<u8>, JsonModel)>)
    requires
        is_sorted(s),
    ensures
        sort_members(s) == s,
    decreases s.len(),
{
    if s.len() > 0 {
        assert(forall|i: int, j: int|
            0 <= i < j < s.drop_first().len() ==> lex_le(
                #[trigger] s.drop_first()[i].0,
                #[trigger] s.drop_first()[j].0,
            ));
        lemma_sort_of_sorted(s.drop_first());
        if s.len() == 1 {
            assert(sort_members(s) =~= s);
        } else {
            assert(s.drop_first()[0] == s[1]);
            assert(lex_le(s[0].0, s[1].0));
            assert(insert_member(s[0], s.drop_first()) == seq![s[0]] + s.drop_first());
            assert(seq![s[0]] + s.drop_first() =~= s);
        }
    }
}

/// How many members of `s` carry the key `k`.
pub open spec fn key_count(s: Seq<(Seq<u8>, JsonModel)>, k: Seq<u8>) -> nat
    decreases s.len(),
{
    if s.len() == 0 {
        0
    } else {
        (if s[0].0 == k {
            1nat
        } else {
            0nat
        }) + key_count(s.drop_first(), k)
    }
}

proof fn lemma_insert_member_key_count(
    m: (Seq<u8>, JsonModel),
    s: Seq<(Seq<u8>, JsonModel)>,
    k: Seq<u8>,
)
    ensures
        key_count(insert_member(m, s), k) == key_count(s, k) + (if m.0 == k {
            1nat
        } else {
            0nat
        }),
    decreases s.len(),
{
    if s.len() == 0 {
        assert(insert_member(m, s) =~= seq![m]);
        assert(seq![m].drop_first() =~= s);
    } else if lex_le(m.0, s[0].0) {
        assert((seq![m] + s).drop_first() =~= s);
    } else {
        lemma_insert_member_key_count(m, s.drop_first(), k);
        let t = insert_member(m, s.drop_first());
        assert((seq![s[0]] + t).drop_first() =~= t);
    }
}

proof fn lemma_sort_members_key_count(s: Seq<(Seq<u8>, JsonModel)>, k: Seq<u8>)
    ensures
        key_count(sort_members(s), k) == key_count(s, k),
    decreases s.len(),
{
    if s.len() > 0 {
        lemma_sort_members_key_count(s.drop_first(), k);
        lemma_insert_member_key_count(s[0], sort_members(s.drop_first()), k);
    }
}

proof fn lemma_count_of_absent(s: Seq<(Seq<u8>, JsonModel)>, k: Seq<u8>)
    requires
        forall|i: int| 0 <= i < s.len() ==> (#[trigger] s[i]).0 != k,
    ensures
        key_count(s, k) == 0,
    decreases s.len(),
{
    if s.len() > 0 {
        assert(forall|i: int|
            0 <= i < s.drop_first().len() ==> (#[trigger] s.drop_first()[i]).0 != k);
        lemma_count_of_absent(s.drop_first(), k);
    }
}

proof fn lemma_unique_implies_count_le_one(s: Seq<(Seq<u8>, JsonModel)>, k: Seq<u8>)
    requires
        unique_keys(s),
    ensures
        key_count(s, k) <= 1,
    decreases s.len(),
{
    if s.len() > 0 {
        assert(forall|i: int, j: int|
            0 <= i < j < s.drop_first().len() ==> (#[trigger] s.drop_first()[i]).0 != (
            #[trigger] s.drop_first()[j]).0);
        lemma_unique_implies_count_le_one(s.drop_first(), k);
        if s[0].0 == k {
            assert(forall|i: int|
                0 <= i < s.drop_first().len() ==> (#[trigger] s.drop_first()[i]).0 != k);
            lemma_count_of_absent(s.drop_first(), k);
        }
    }
}

proof fn lemma_two_keys_give_count_two(s: Seq<(Seq<u8>, JsonModel)>, i: int, j: int)
    requires
        0 <= i < j < s.len(),
        s[i].0 == s[j].0,
    ensures
        key_count(s, s[i].0) >= 2,
    decreases s.len(),
{
    if i == 0 {
        lemma_one_key_gives_count_one(s.drop_first(), j - 1);
        assert(s.drop_first()[j - 1] == s[j]);
    } else {
        assert(s.drop_first()[i - 1] == s[i]);
        assert(s.drop_first()[j - 1] == s[j]);
        lemma_two_keys_give_count_two(s.drop_first(), i - 1, j - 1);
    }
}

proof fn lemma_one_key_gives_count_one(s: Seq<(Seq<u8>, JsonModel)>, i: int)
    requires
        0 <= i < s.len(),
    ensures
        key_count(s, s[i].0) >= 1,
    decreases s.len(),
{
    if i > 0 {
        assert(s.drop_first()[i - 1] == s[i]);
        lemma_one_key_gives_count_one(s.drop_first(), i - 1);
    }
}

/// Sorting keeps keys unique: the sorted members carry the same key counts.
proof fn lemma_sort_members_unique(s: Seq<(Seq<u8>, JsonModel)>)
    requires
        unique_keys(s),
    ensures
        unique_keys(sort_members(s)),
{
    let t = sort_members(s);
    assert forall|i: int, j: int| 0 <= i < j < t.len() implies t[i].0 != t[j].0 by {
        if t[i].0 == t[j].0 {
            lemma_two_keys_give_count_two(t, i, j);
            lemma_sort_members_key_count(s, t[i].0);
            lemma_unique_implies_count_le_one(s, t[i].0);
        }
    }
}

/// Canonicalization leaves a canonical value unchanged.
proof fn lemma_canonical_canon_id(m: JsonModel)
    requires
        canonical(m),
    ensures
        canon(m) == m,
    decreases m,
{
    match m {
        JsonModel::Array(elems) => {
            lemma_canon_elems_index(elems);
            assert forall|i: int| 0 <= i < elems.len() implies canon_elems(elems)[i] == elems[i] by {
                lemma_canonical_canon_id(elems[i]);
            }
            assert(canon_elems(elems) =~= elems);
        },
        JsonModel::Object(members) => {
            lemma_canon_members_index(members);
            assert forall|i: int| 0 <= i < members.len() implies canon_members(members)[i]
                == members[i] by {
                lemma_canonical_canon_id(members[i].1);
            }
            assert(canon_members(members) =~= members);
            lemma_sort_of_sorted(members);
        },
        _ => {},
    }
}

/// Canonicalization produces a canonical value.
proof fn lemma_canon_canonical(m: JsonModel)
    ensures
        canonical(canon(m)),
    decreases m,
{
    match m {
        JsonModel::Array(elems) => {
            lemma_canon_elems_index(elems);
            assert forall|i: int| 0 <= i < canon_elems(elems).len() implies canonical(
                #[trigger] canon_elems(elems)[i],
            ) by {
                lemma_canon_canonical(elems[i]);
            }
        },
        JsonModel::Object(members) => {
            lemma_canon_members_index(members);
            lemma_sort_members_sorted(canon_members(members));
            let t = sort_members(canon_members(members));
            lemma_sort_members_elements(canon_members(members));
            assert forall|i: int| 0 <= i < t.len() implies canonical(#[trigger] t[i].1) by {
                let k = choose|k: int|
                    0 <= k < canon_members(members).len() && t[i] == canon_members(members)[k];
                lemma_canon_canonical(members[k].1);
            }
        },
        _ => {},
    }
}

/// Every member of `sort_members(s)` is a member of `s`.
proof fn lemma_sort_members_elements(s: Seq<(Seq<u8>, JsonModel)>)
    ensures
        sort_members(s).len() == s.len(),
        forall|i: int|
            0 <= i < sort_members(s).len() ==> exists|k: int|
                0 <= k < s.len() && #[trigger] sort_members(s)[i] == s[k],
    decreases s.len(),
{
    if s.len() > 0 {
        lemma_sort_members_elements(s.drop_first());
        let t = sort_members(s.drop_first());
        lemma_insert_member_elements(s[0], t);
        let r = insert_member(s[0], t);
        assert forall|i: int| 0 <= i < r.len() implies exists|k: int|
            0 <= k < s.len() && #[trigger] r[i] == s[k] by {
            if r[i] == s[0] {
                assert(r[i] == s[0]);
            } else {
                let k1 = choose|k1: int| 0 <= k1 < t.len() && r[i] == t[k1];
                let k2 = choose|k2: int|
                    0 <= k2 < s.drop_first().len() && t[k1] == s.drop_first()[k2];
                assert(s.drop_first()[k2] == s[k2 + 1]);
            }
        }
    }
}

/// Canonicalization is idempotent: canonicalizing a canonical value is the
/// identity, so `canon(canon(v)) == canon(v)` for every JSON value.
pub proof fn lemma_canon_idempotent(m: JsonModel)
    ensures
        canon(canon(m)) == canon(m),
{
    lemma_canon_canonical(m);
    lemma_canonical_canon_id(canon(m));
}

/// On a well-formed value - no object of it holds one key twice - the
/// canonical form has every object's keys in strictly ascending byte order,
/// at every nesting level.
pub proof fn lemma_canon_strictly_sorted(m: JsonModel)
    requires
        wf_json(m),
    ensures
        strictly_canonical(canon(m)),
    decreases m,
{
    match m {
        JsonModel::Array(elems) => {
            lemma_canon_elems_index(elems);
            assert forall|i: int| 0 <= i < canon_elems(elems).len() implies strictly_canonical(
                #[trigger] canon_elems(elems)[i],
            ) by {
                lemma_canon_strictly_sorted(elems[i]);
            }
        },
        JsonModel::Object(members) => {
            lemma_canon_members_index(members);
            assert forall|i: int, j: int| 0 <= i < j < canon_members(members).len() implies (
            #[trigger] canon_members(members)[i]).0 != (#[trigger] canon_members(
                members,
            )[j]).0 by {
                assert(members[i].0 != members[j].0);
            }
            lemma_sort_members_sorted(canon_members(members));
            lemma_sort_members_unique(canon_members(members));
            let t = sort_members(canon_members(members));
            lemma_sort_members_elements(canon_members(members));
            assert forall|i: int| 0 <= i < t.len() implies strictly_canonical(
                #[trigger] t[i].1,
            ) by {
                let k = choose|k: int|
                    0 <= k < canon_members(members).len() && t[i] == canon_members(members)[k];
                lemma_canon_strictly_sorted(members[k].1);
            }
        },
        _ => {},
    }
}

/// Canonical with strictly ascending keys at every level.
pub open spec fn strictly_canonical(m: JsonModel) -> bool
    decreases m,
{
    match m {
        JsonModel::Null => true,
        JsonModel::Bool(_) => true,
        JsonModel::Number(_) => true,
        JsonModel::Text(_) => true,
        JsonModel::Array(elems) => forall|i: int|
            0 <= i < elems.len() ==> strictly_canonical(#[trigger] elems[i]),
        JsonModel::Object(members) => strictly_sorted(members) && forall|i: int|
            0 <= i < members.len() ==> strictly_canonical(#[trigger] members[i].1),
    }
}

/// Canonicalizing an array keeps its length and its element order: element
/// `i` of the canonical array is the canonical form of element `i`.
pub proof fn lemma_canon_array_order(elems: Seq<JsonModel>)
    ensures
        canon(JsonModel::Array(elems)) == JsonModel::Array(canon_elems(elems)),
        canon_elems(elems).len() == elems.len(),
        forall|i: int| 0 <= i < elems.len() ==> #[trigger] canon_elems(elems)[i] == canon(elems[i]),
{
    lemma_canon_elems_index(elems);
}

} // verus!
