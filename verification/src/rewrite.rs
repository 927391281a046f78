//! Content-stream surgery: removing placeholder bytes from string operands,
//! in an order that keeps the offsets of later removals valid.
use vstd::prelude::*;
use crate::detect::SpanMatchRef;
use crate::operators::spells;

verus! {

/// `bytes` with the range `start..min(end, len)` removed; unchanged when
/// `start` is at or past the end or the range is empty.
pub open spec fn slice_bytes_spec(bytes: Seq<u8>, start: int, end: int) -> Seq<u8> {
    if start >= bytes.len() {
        bytes
    } else {
        let actual_end = if end < bytes.len() { end } else { bytes.len() as int };
        if start < actual_end {
            bytes.subrange(0, start) + bytes.subrange(actual_end, bytes.len() as int)
        } else {
            bytes
        }
    }
}

/// Removes `bytes[start..end]` in place, clamping `end` to the length.
pub fn slice_bytes_in_place(bytes: &mut Vec<u8>, start: usize, end: usize)
    ensures
        final(bytes)@ == slice_bytes_spec(old(bytes)@, start as int, end as int),
{
    let n = bytes.len();
    if start >= n {
        return;
    }
    let actual_end = if end < n { end } else { n };
    if start < actual_end {
        let mut out: Vec<u8> = Vec::new();
        let mut i: usize = 0;
        while i < n
            invariant
                n == old(bytes)@.len(),
                bytes@ == old(bytes)@,
                start < actual_end <= n,
                i <= n,
                out@ == (if i <= start {
                    old(bytes)@.subrange(0, i as int)
                } else if i <= actual_end {
                    old(bytes)@.subrange(0, start as int)
                } else {
                    old(bytes)@.subrange(0, start as int) + old(bytes)@.subrange(actual_end as int, i as int)
                }),
            decreases n - i,
        {
            if i < start || i >= actual_end {
                out.push(bytes[i]);
            }
            i = i + 1;
        }
        *bytes = out;
    }
}

} // verus!

verus! {

/// A removal: operation index, `TJ` element index, byte range.
pub type Removal = (usize, Option<usize>, usize, usize);

pub open spec fn opt_lt(a: Option<usize>, b: Option<usize>) -> bool {
    match (a, b) {
        (None, Some(_)) => true,
        (Some(x), Some(y)) => x < y,
        _ => false,
    }
}

/// `a` comes before `b` in ascending order of
/// (operation index, element index, start byte), with no element index
/// before any.
pub open spec fn key_lt(a: Removal, b: Removal) -> bool {
    a.0 < b.0 || (a.0 == b.0 && (opt_lt(a.1, b.1) || (a.1 == b.1 && a.2 < b.2)))
}

/// Position at which `x` goes into the descending sequence `s`: after every
/// element whose key is not smaller than `x`'s.
pub open spec fn insert_pos(s: Seq<Removal>, x: Removal, i: int) -> int
    decreases s.len() - i,
{
    if i < 0 || i >= s.len() {
        s.len() as int
    } else if key_lt(s[i], x) {
        i
    } else {
        insert_pos(s, x, i + 1)
    }
}

/// The removals sorted by descending key, stably: removals with equal keys
/// keep their order.
pub open spec fn sort_removals(s: Seq<Removal>) -> Seq<Removal>
    decreases s.len(),
{
    if s.len() == 0 {
        Seq::empty()
    } else {
        let sorted = sort_removals(s.drop_last());
        sorted.insert(insert_pos(sorted, s.last(), 0), s.last())
    }
}

pub open spec fn refs_removals(refs: Seq<SpanMatchRef>) -> Seq<Removal> {
    refs.map_values(|r: SpanMatchRef| (r.op_index, r.sub_index, r.byte_start, r.byte_end))
}

fn key_lt_exec(a: &Removal, b: &Removal) -> (r: bool)
    ensures
        r == key_lt(*a, *b),
{
    if a.0 != b.0 {
        return a.0 < b.0;
    }
    let sub_lt = match (a.1, b.1) {
        (None, Some(_)) => true,
        (Some(x), Some(y)) => x < y,
        _ => false,
    };
    if sub_lt {
        return true;
    }
    let sub_eq = match (a.1, b.1) {
        (None, None) => true,
        (Some(x), Some(y)) => x == y,
        _ => false,
    };
    sub_eq && a.2 < b.2
}

proof fn lemma_insert_pos(s: Seq<Removal>, x: Removal, i: int)
    requires
        0 <= i <= s.len(),
    ensures
        i <= insert_pos(s, x, i) <= s.len(),
        forall|k: int| i <= k < insert_pos(s, x, i) ==> !key_lt(#[trigger] s[k], x),
        insert_pos(s, x, i) < s.len() ==> key_lt(s[insert_pos(s, x, i)], x),
    decreases s.len() - i,
{
    if i < s.len() && !key_lt(s[i], x) {
        lemma_insert_pos(s, x, i + 1);
    }
}

/// The removals of the given references, ordered so that removing them one
/// after the other never shifts a range still to be removed: descending by
/// operation, then element, then start byte.
pub fn plan_removals(refs: &Vec<SpanMatchRef>) -> (r: Vec<Removal>)
    ensures
        r@ == sort_removals(refs_removals(refs@)),
{
    let ghost all = refs_removals(refs@);
    let mut v: Vec<Removal> = Vec::new();
    let mut i: usize = 0;
    while i < refs.len()
        invariant
            i <= refs@.len(),
            all == refs_removals(refs@),
            v@ == sort_removals(all.subrange(0, i as int)),
        decreases refs@.len() - i,
    {
        let rf = &refs[i];
        let x: Removal = (rf.op_index, rf.sub_index, rf.byte_start, rf.byte_end);
        let mut pos: usize = 0;
        proof {
            lemma_insert_pos(v@, x, 0);
        }
        while pos < v.len() && !key_lt_exec(&v[pos], &x)
            invariant
                pos <= v@.len(),
                insert_pos(v@, x, pos as int) == insert_pos(v@, x, 0),
            decreases v@.len() - pos,
        {
            pos = pos + 1;
        }
        proof {
            let pre = all.subrange(0, i + 1);
            assert(pre.drop_last() =~= all.subrange(0, i as int));
            assert(pre.last() == x);
        }
        v.insert(pos, x);
        i = i + 1;
    }
    assert(all.subrange(0, refs@.len() as int) =~= all);
    v
}

/// Every removal is ordered before the ones after it.
pub open spec fn is_descending(s: Seq<Removal>) -> bool {
    forall|i: int, j: int| 0 <= i < j < s.len() ==> !key_lt(#[trigger] s[i], #[trigger] s[j])
}

proof fn lemma_key_order(a: Removal, b: Removal, c: Removal)
    ensures
        key_lt(a, b) && key_lt(b, c) ==> key_lt(a, c),
        !key_lt(a, b) ==> (key_lt(b, a) || (a.0 == b.0 && a.1 == b.1 && a.2 == b.2)),
        key_lt(a, b) ==> !key_lt(b, a),
{
}

proof fn lemma_insert_descending(s: Seq<Removal>, x: Removal)
    requires
        is_descending(s),
    ensures
        is_descending(s.insert(insert_pos(s, x, 0), x)),
{
    lemma_insert_pos(s, x, 0);
    let p = insert_pos(s, x, 0);
    let t = s.insert(p, x);
    assert forall|i: int, j: int| 0 <= i < j < t.len() implies !key_lt(#[trigger] t[i], #[trigger] t[j]) by {
        if j < p {
            assert(t[i] == s[i] && t[j] == s[j]);
        } else if j == p {
            assert(t[i] == s[i] && t[j] == x);
        } else if i < p {
            assert(t[i] == s[i] && t[j] == s[j - 1]);
            lemma_key_order(s[i], s[j - 1], x);
            lemma_key_order(s[j - 1], s[i], x);
            lemma_key_order(s[i], s[j - 1], s[j - 1]);
            if key_lt(s[i], s[j - 1]) {
                assert(false);
            }
        } else if i == p {
            assert(t[i] == x && t[j] == s[j - 1]);
            assert(key_lt(s[p], x));
            if j - 1 > p {
                assert(!key_lt(s[p], s[j - 1]));
            }
            lemma_key_order(x, s[j - 1], s[p]);
            lemma_key_order(s[j - 1], s[p], x);
            lemma_key_order(s[p], s[j - 1], x);
        } else {
            assert(t[i] == s[i - 1] && t[j] == s[j - 1]);
        }
    }
}

/// The planned removals are the given ones (as a multiset), in descending
/// order of (operation, element, start byte): a removal never comes after
/// one that lies before it in the same operand.
pub proof fn law_removals_sorted_permutation(s: Seq<Removal>)
    ensures
        is_descending(sort_removals(s)),
        sort_removals(s).to_multiset() == s.to_multiset(),
    decreases s.len(),
{
    broadcast use vstd::seq_lib::to_multiset_insert, vstd::seq_lib::to_multiset_build;

    if s.len() > 0 {
        law_removals_sorted_permutation(s.drop_last());
        let sorted = sort_removals(s.drop_last());
        lemma_insert_pos(sorted, s.last(), 0);
        lemma_insert_descending(sorted, s.last());
        assert(s.drop_last().push(s.last()) =~= s);
    } else {
        assert(sort_removals(s) =~= s);
    }
}

} // verus!

verus! {

/// Where the text of an operation sits among its operands.
#[derive(Clone, Copy, Debug, PartialEq, Eq, Structural)]
pub enum TextOperand {
    /// The first operand is the string (`Tj`, `'`).
    First,
    /// The third operand is the string (`"`).
    Third,
    /// The first operand is an array of strings and adjustments (`TJ`).
    ArrayElement,
    /// The operation shows no text.
    NoText,
}

/// Which operand of a text-showing operator holds its string.
pub open spec fn text_operand_spec(operator: Seq<char>) -> TextOperand {
    if operator == "Tj"@ || operator == "'"@ {
        TextOperand::First
    } else if operator == "\""@ {
        TextOperand::Third
    } else if operator == "TJ"@ {
        TextOperand::ArrayElement
    } else {
        TextOperand::NoText
    }
}

/// Which operand of `operator` holds the text that a removal slices.
pub fn text_operand(operator: &str) -> (r: TextOperand)
    ensures
        r == text_operand_spec(operator@),
{
    let op = crate::text::chars_of(operator);
    if spells(&op, "Tj") || spells(&op, "'") {
        TextOperand::First
    } else if spells(&op, "\"") {
        TextOperand::Third
    } else if spells(&op, "TJ") {
        TextOperand::ArrayElement
    } else {
        TextOperand::NoText
    }
}

} // verus!

verus! {

/// Model of the strings of an operation that placeholder text can be cut
/// from.
pub enum OpModel {
    Single(Option<Seq<u8>>),
    Elements(Seq<Option<Seq<u8>>>),
    Other,
}

/// The strings of a content-stream operation that placeholder text can be
/// cut from.
pub enum OpStrings {
    /// A `Tj`, `'` or `"` operation: the bytes of its string operand, if
    /// that operand is a string.
    Single(Option<Vec<u8>>),
    /// A `TJ` operation whose operand is an array: for each element, its
    /// bytes if it is a string.
    Elements(Vec<Option<Vec<u8>>>),
    /// Any other operation.
    Other,
}

pub open spec fn bytes_opt_view(o: Option<Vec<u8>>) -> Option<Seq<u8>> {
    match o {
        Some(b) => Some(b@),
        None => None,
    }
}

pub open spec fn op_view(o: OpStrings) -> OpModel {
    match o {
        OpStrings::Single(b) => OpModel::Single(bytes_opt_view(b)),
        OpStrings::Elements(es) => OpModel::Elements(es@.map_values(|e: Option<Vec<u8>>| bytes_opt_view(e))),
        OpStrings::Other => OpModel::Other,
    }
}

pub open spec fn ops_view(s: Seq<OpStrings>) -> Seq<OpModel> {
    s.map_values(|o: OpStrings| op_view(o))
}

/// One removal: the string it points at loses the byte range; a removal
/// pointing past the operations, at an operation without such a string, or
/// at an array element out of range or not a string changes nothing.
pub open spec fn remove_step(ops: Seq<OpModel>, r: Removal) -> Seq<OpModel> {
    let (op, sub, start, end) = r;
    if op >= ops.len() {
        ops
    } else {
        match ops[op as int] {
            OpModel::Single(Some(b)) => ops.update(
                op as int,
                OpModel::Single(Some(slice_bytes_spec(b, start as int, end as int))),
            ),
            OpModel::Elements(es) => match sub {
                Some(k) => if k < es.len() && es[k as int] is Some {
                    ops.update(
                        op as int,
                        OpModel::Elements(
                            es.update(k as int, Some(slice_bytes_spec(es[k as int]->0, start as int, end as int))),
                        ),
                    )
                } else {
                    ops
                },
                None => ops,
            },
            _ => ops,
        }
    }
}

/// The removals applied one after the other, in order.
pub open spec fn remove_all(ops: Seq<OpModel>, rs: Seq<Removal>) -> Seq<OpModel>
    decreases rs.len(),
{
    if rs.len() == 0 {
        ops
    } else {
        remove_step(remove_all(ops, rs.drop_last()), rs.last())
    }
}

/// Applies one removal (see [`remove_step`]).
fn apply_removal(ops: &mut Vec<OpStrings>, r: Removal)
    ensures
        ops_view(final(ops)@) == remove_step(ops_view(old(ops)@), r),
{
    let (op, sub, start, end) = r;
    if op >= ops.len() {
        return;
    }
    let ghost before = ops@;
    let mut cur = OpStrings::Other;
    std::mem::swap(&mut cur, &mut ops[op]);
    let ghost taken = cur;
    assert(taken == before[op as int]);
    let next = match cur {
        OpStrings::Single(Some(mut b)) => {
            slice_bytes_in_place(&mut b, start, end);
            OpStrings::Single(Some(b))
        },
        OpStrings::Elements(mut es) => {
            match sub {
                Some(k) => {
                    if k < es.len() {
                        let mut el: Option<Vec<u8>> = None;
                        let ghost es_before = es@;
                        std::mem::swap(&mut el, &mut es[k]);
                        match el {
                            Some(mut b) => {
                                slice_bytes_in_place(&mut b, start, end);
                                es.set(k, Some(b));
                            },
                            None => {
                                es.set(k, None);
                            },
                        }
                        proof {
                            let m = es_before.map_values(|e: Option<Vec<u8>>| bytes_opt_view(e));
                            if es_before[k as int] is Some {
                                assert(es@.map_values(|e: Option<Vec<u8>>| bytes_opt_view(e)) =~= m.update(
                                    k as int,
                                    Some(slice_bytes_spec(m[k as int]->0, start as int, end as int)),
                                ));
                            } else {
                                assert(es@.map_values(|e: Option<Vec<u8>>| bytes_opt_view(e)) =~= m);
                            }
                        }
                    }
                },
                None => {},
            }
            OpStrings::Elements(es)
        },
        other => other,
    };
    ops.set(op, next);
    assert(ops_view(ops@) =~= remove_step(ops_view(before), r));
}

/// Applies the removals one after the other (see [`remove_all`]).
pub fn excise(ops: &mut Vec<OpStrings>, removals: &Vec<Removal>)
    ensures
        ops_view(final(ops)@) == remove_all(ops_view(old(ops)@), removals@),
{
    let mut i: usize = 0;
    while i < removals.len()
        invariant
            i <= removals.len(),
            ops_view(ops@) == remove_all(ops_view(old(ops)@), removals@.take(i as int)),
        decreases removals.len() - i,
    {
        apply_removal(ops, removals[i]);
        assert(removals@.take(i as int + 1).drop_last() =~= removals@.take(i as int));
        i = i + 1;
    }
    assert(removals@.take(i as int) =~= removals@);
}

/// Cuts the text of the given span references out of the operations, in
/// the order [`plan_removals`] gives.
pub fn excise_placeholders(ops: &mut Vec<OpStrings>, refs: &Vec<SpanMatchRef>)
    ensures
        ops_view(final(ops)@) == remove_all(ops_view(old(ops)@), sort_removals(refs_removals(refs@))),
{
    let removals = plan_removals(refs);
    excise(ops, &removals);
}

/// Excision keeps the number of operations and leaves every operation
/// that no removal points at as it was.
pub proof fn law_excise_frame(ops: Seq<OpModel>, rs: Seq<Removal>, j: int)
    requires
        0 <= j < ops.len(),
        forall|k: int| 0 <= k < rs.len() ==> (#[trigger] rs[k]).0 != j,
    ensures
        remove_all(ops, rs).len() == ops.len(),
        remove_all(ops, rs)[j] == ops[j],
    decreases rs.len(),
{
    if rs.len() > 0 {
        law_excise_frame(ops, rs.drop_last(), j);
        assert(rs.last() == rs[rs.len() - 1]);
    }
}

} // verus!

verus! {

/// A string that removals cut: an operation index and, in a `TJ` array, an
/// element index.
pub type Slot = (int, Option<int>);

/// The string a removal cuts in `ops`, if any: the single string of a
/// `Tj`-like operation, or the element of a `TJ` array that the removal
/// names. A removal that cuts no string changes nothing.
pub open spec fn slot_of(ops: Seq<OpModel>, r: Removal) -> Option<Slot> {
    if r.0 >= ops.len() {
        None
    } else {
        match ops[r.0 as int] {
            OpModel::Single(Some(_)) => Some((r.0 as int, None)),
            OpModel::Elements(es) => match r.1 {
                Some(k) => if k < es.len() && es[k as int] is Some {
                    Some((r.0 as int, Some(k as int)))
                } else {
                    None
                },
                None => None,
            },
            _ => None,
        }
    }
}

/// The bytes of the string at a slot.
pub open spec fn slot_bytes(ops: Seq<OpModel>, s: Slot) -> Seq<u8> {
    match ops[s.0] {
        OpModel::Single(Some(b)) => b,
        OpModel::Elements(es) => es[s.1->0]->0,
        _ => Seq::empty(),
    }
}

/// Whether byte `p` of the string at slot `s` lies in the range of a
/// removal that cuts that string.
pub open spec fn slot_covered(ops: Seq<OpModel>, rs: Seq<Removal>, s: Slot, p: int) -> bool {
    exists|i: int| 0 <= i < rs.len() && #[trigger] slot_of(ops, rs[i]) == Some(s) && rs[i].2 <= p < rs[i].3
}

/// The bytes at positions `lo..hi` of the string at slot `s` that no
/// removal covers, in order.
pub open spec fn slot_kept_range(ops: Seq<OpModel>, rs: Seq<Removal>, s: Slot, lo: int, hi: int) -> Seq<u8>
    decreases hi - lo,
{
    if hi <= lo {
        Seq::empty()
    } else if slot_covered(ops, rs, s, hi - 1) {
        slot_kept_range(ops, rs, s, lo, hi - 1)
    } else {
        slot_kept_range(ops, rs, s, lo, hi - 1).push(slot_bytes(ops, s)[hi - 1])
    }
}

/// The bytes of the string at slot `s` that no removal covers, in order.
pub open spec fn slot_kept(ops: Seq<OpModel>, rs: Seq<Removal>, s: Slot) -> Seq<u8> {
    slot_kept_range(ops, rs, s, 0, slot_bytes(ops, s).len() as int)
}

/// The operations with every string reduced to the bytes that no removal
/// cutting it covers; everything else as it was.
pub open spec fn excised(ops: Seq<OpModel>, rs: Seq<Removal>) -> Seq<OpModel> {
    Seq::new(
        ops.len(),
        |o: int|
            match ops[o] {
                OpModel::Single(Some(_)) => OpModel::Single(Some(slot_kept(ops, rs, (o, None)))),
                OpModel::Elements(es) => OpModel::Elements(
                    Seq::new(
                        es.len(),
                        |k: int|
                            match es[k] {
                                Some(_) => Some(slot_kept(ops, rs, (o, Some(k)))),
                                None => None,
                            },
                    ),
                ),
                other => other,
            },
    )
}

/// Same operations and, in each, the same places that hold a string.
pub open spec fn same_shape(a: Seq<OpModel>, b: Seq<OpModel>) -> bool {
    &&& a.len() == b.len()
    &&& forall|o: int|
        0 <= o < a.len() ==> match (#[trigger] a[o], b[o]) {
            (OpModel::Single(x), OpModel::Single(y)) => (x is Some) == (y is Some),
            (OpModel::Elements(x), OpModel::Elements(y)) => x.len() == y.len() && forall|k: int|
                0 <= k < x.len() ==> ((#[trigger] x[k]) is Some) == (y[k] is Some),
            (OpModel::Other, OpModel::Other) => true,
            _ => false,
        }
}

proof fn lemma_same_shape_slot(a: Seq<OpModel>, b: Seq<OpModel>, r: Removal)
    requires
        same_shape(a, b),
    ensures
        slot_of(a, r) == slot_of(b, r),
{
    if r.0 < a.len() {
        let o = r.0 as int;
        match (a[o], b[o]) {
            (OpModel::Elements(x), OpModel::Elements(y)) => {
                if let Some(k) = r.1 {
                    if k < x.len() {
                        assert((x[k as int] is Some) == (y[k as int] is Some));
                    }
                }
            },
            _ => {},
        }
    }
}

proof fn lemma_kept_split(ops: Seq<OpModel>, rs: Seq<Removal>, s: Slot, lo: int, mid: int, hi: int)
    requires
        lo <= mid <= hi,
    ensures
        slot_kept_range(ops, rs, s, lo, hi) == slot_kept_range(ops, rs, s, lo, mid) + slot_kept_range(ops, rs, s, mid, hi),
    decreases hi - mid,
{
    if hi > mid {
        lemma_kept_split(ops, rs, s, lo, mid, hi - 1);
    } else {
        assert(slot_kept_range(ops, rs, s, lo, mid) + Seq::<u8>::empty() =~= slot_kept_range(ops, rs, s, lo, mid));
    }
}

proof fn lemma_kept_uncovered(ops: Seq<OpModel>, rs: Seq<Removal>, s: Slot, lo: int, hi: int)
    requires
        0 <= lo <= hi <= slot_bytes(ops, s).len(),
        forall|p: int| lo <= p < hi ==> !slot_covered(ops, rs, s, p),
    ensures
        slot_kept_range(ops, rs, s, lo, hi) == slot_bytes(ops, s).subrange(lo, hi),
    decreases hi - lo,
{
    let b = slot_bytes(ops, s);
    if hi > lo {
        lemma_kept_uncovered(ops, rs, s, lo, hi - 1);
        assert(b.subrange(lo, hi - 1).push(b[hi - 1]) =~= b.subrange(lo, hi));
    } else {
        assert(b.subrange(lo, hi) =~= Seq::<u8>::empty());
    }
}

proof fn lemma_kept_covered(ops: Seq<OpModel>, rs: Seq<Removal>, s: Slot, lo: int, hi: int)
    requires
        forall|p: int| lo <= p < hi ==> slot_covered(ops, rs, s, p),
    ensures
        slot_kept_range(ops, rs, s, lo, hi) == Seq::<u8>::empty(),
    decreases hi - lo,
{
    if hi > lo {
        lemma_kept_covered(ops, rs, s, lo, hi - 1);
    }
}

proof fn lemma_kept_same_cover(ops: Seq<OpModel>, rs1: Seq<Removal>, rs2: Seq<Removal>, s: Slot, lo: int, hi: int)
    requires
        forall|p: int| lo <= p < hi ==> slot_covered(ops, rs1, s, p) == slot_covered(ops, rs2, s, p),
    ensures
        slot_kept_range(ops, rs1, s, lo, hi) == slot_kept_range(ops, rs2, s, lo, hi),
    decreases hi - lo,
{
    if hi > lo {
        lemma_kept_same_cover(ops, rs1, rs2, s, lo, hi - 1);
    }
}

proof fn lemma_kept_len(ops: Seq<OpModel>, rs: Seq<Removal>, s: Slot, lo: int, hi: int)
    requires
        lo <= hi,
    ensures
        slot_kept_range(ops, rs, s, lo, hi).len() <= hi - lo,
    decreases hi - lo,
{
    if hi > lo {
        lemma_kept_len(ops, rs, s, lo, hi - 1);
    }
}

/// Applying the last removal to the string of its slot, as left by the
/// earlier ones, removes exactly the bytes it covers (its range clamped to
/// the string), when every earlier non-empty removal of that string lies
/// after it.
proof fn lemma_slot_step(ops: Seq<OpModel>, rs: Seq<Removal>, s: Slot)
    requires
        rs.len() > 0,
        slot_of(ops, rs.last()) == Some(s),
        rs.last().2 < rs.last().3 ==> forall|i: int|
            0 <= i < rs.len() - 1 && #[trigger] slot_of(ops, rs[i]) == Some(s) && rs[i].2 < rs[i].3 ==> rs.last().3
                <= rs[i].2,
    ensures
        slice_bytes_spec(slot_kept(ops, rs.drop_last(), s), rs.last().2 as int, rs.last().3 as int) == slot_kept(
            ops,
            rs,
            s,
        ),
{
    let rs1 = rs.drop_last();
    let last = rs.last();
    let st = last.2 as int;
    let e = last.3 as int;
    let n = slot_bytes(ops, s).len() as int;
    let k1 = slot_kept(ops, rs1, s);
    assert(last == rs[rs.len() - 1]);
    if st >= e || st >= n {
        // The removal covers no byte of the string and slices nothing off it.
        lemma_kept_len(ops, rs1, s, 0, n);
        assert forall|p: int| 0 <= p < n implies slot_covered(ops, rs, s, p) == slot_covered(ops, rs1, s, p) by {
            if slot_covered(ops, rs, s, p) {
                let k = choose|k: int| 0 <= k < rs.len() && #[trigger] slot_of(ops, rs[k]) == Some(s) && rs[k].2 <= p < rs[k].3;
                assert(k < rs.len() - 1);
                assert(rs1[k] == rs[k]);
            }
            if slot_covered(ops, rs1, s, p) {
                let k = choose|k: int| 0 <= k < rs1.len() && #[trigger] slot_of(ops, rs1[k]) == Some(s) && rs1[k].2 <= p < rs1[k].3;
                assert(rs1[k] == rs[k]);
            }
        }
        lemma_kept_same_cover(ops, rs, rs1, s, 0, n);
    } else {
        let m = if e < n { e } else { n };
        assert forall|p: int| 0 <= p < m implies !slot_covered(ops, rs1, s, p) by {
            if slot_covered(ops, rs1, s, p) {
                let k = choose|k: int| 0 <= k < rs1.len() && #[trigger] slot_of(ops, rs1[k]) == Some(s) && rs1[k].2 <= p < rs1[k].3;
                assert(rs1[k] == rs[k]);
            }
        }
        lemma_kept_split(ops, rs1, s, 0, m, n);
        lemma_kept_uncovered(ops, rs1, s, 0, m);
        let tail = slot_kept_range(ops, rs1, s, m, n);
        assert(k1 == slot_bytes(ops, s).subrange(0, m) + tail);
        if e >= n {
            assert(tail =~= Seq::<u8>::empty());
        }
        assert(slice_bytes_spec(k1, st, e) =~= slot_bytes(ops, s).subrange(0, st) + tail);
        assert forall|p: int| 0 <= p < st implies !slot_covered(ops, rs, s, p) by {
            if slot_covered(ops, rs, s, p) {
                let k = choose|k: int| 0 <= k < rs.len() && #[trigger] slot_of(ops, rs[k]) == Some(s) && rs[k].2 <= p < rs[k].3;
            }
        }
        assert forall|p: int| st <= p < m implies slot_covered(ops, rs, s, p) by {
            assert(slot_of(ops, rs[rs.len() - 1]) == Some(s));
        }
        assert forall|p: int| m <= p < n implies slot_covered(ops, rs, s, p) == slot_covered(ops, rs1, s, p) by {
            if slot_covered(ops, rs, s, p) {
                let k = choose|k: int| 0 <= k < rs.len() && #[trigger] slot_of(ops, rs[k]) == Some(s) && rs[k].2 <= p < rs[k].3;
                assert(k < rs.len() - 1);
                assert(rs1[k] == rs[k]);
            }
            if slot_covered(ops, rs1, s, p) {
                let k = choose|k: int| 0 <= k < rs1.len() && #[trigger] slot_of(ops, rs1[k]) == Some(s) && rs1[k].2 <= p < rs1[k].3;
                assert(rs1[k] == rs[k]);
            }
        }
        lemma_kept_split(ops, rs, s, 0, st, n);
        lemma_kept_split(ops, rs, s, st, m, n);
        lemma_kept_uncovered(ops, rs, s, 0, st);
        lemma_kept_covered(ops, rs, s, st, m);
        lemma_kept_same_cover(ops, rs, rs1, s, m, n);
        assert(slot_kept(ops, rs, s) =~= slot_bytes(ops, s).subrange(0, st) + tail);
    }
}

proof fn lemma_excised_shape(ops: Seq<OpModel>, rs: Seq<Removal>)
    ensures
        same_shape(excised(ops, rs), ops),
{
    let x = excised(ops, rs);
    assert forall|o: int| 0 <= o < x.len() implies match (#[trigger] x[o], ops[o]) {
        (OpModel::Single(a), OpModel::Single(b)) => (a is Some) == (b is Some),
        (OpModel::Elements(a), OpModel::Elements(b)) => a.len() == b.len() && forall|k: int|
            0 <= k < a.len() ==> ((#[trigger] a[k]) is Some) == (b[k] is Some),
        (OpModel::Other, OpModel::Other) => true,
        _ => false,
    } by {
        match ops[o] {
            OpModel::Elements(es) => {
                if let OpModel::Elements(a) = x[o] {
                    assert forall|k: int| 0 <= k < a.len() implies ((#[trigger] a[k]) is Some) == (es[k] is Some) by {}
                }
            },
            _ => {},
        }
    }
}

/// A removal that cuts another string leaves the bytes kept of this one.
proof fn lemma_slot_unaffected(ops: Seq<OpModel>, rs: Seq<Removal>, s: Slot)
    requires
        rs.len() > 0,
        slot_of(ops, rs.last()) != Some(s),
    ensures
        slot_kept(ops, rs, s) == slot_kept(ops, rs.drop_last(), s),
{
    let rs1 = rs.drop_last();
    assert(rs.last() == rs[rs.len() - 1]);
    assert forall|p: int| 0 <= p < slot_bytes(ops, s).len() implies slot_covered(ops, rs, s, p) == slot_covered(
        ops,
        rs1,
        s,
        p,
    ) by {
        if slot_covered(ops, rs, s, p) {
            let k = choose|k: int| 0 <= k < rs.len() && #[trigger] slot_of(ops, rs[k]) == Some(s) && rs[k].2 <= p < rs[k].3;
            assert(rs1[k] == rs[k]);
        }
        if slot_covered(ops, rs1, s, p) {
            let k = choose|k: int| 0 <= k < rs1.len() && #[trigger] slot_of(ops, rs1[k]) == Some(s) && rs1[k].2 <= p < rs1[k].3;
            assert(rs1[k] == rs[k]);
        }
    }
    lemma_kept_same_cover(ops, rs, rs1, s, 0, slot_bytes(ops, s).len() as int);
}

/// Removals applied in an order where, within each string, every removal
/// lies before the ones applied earlier, leave each string with exactly the
/// bytes that no removal cutting it covers.
proof fn lemma_remove_all_slots(ops: Seq<OpModel>, rs: Seq<Removal>)
    requires
        forall|i: int, j: int|
            0 <= i < j < rs.len() && (#[trigger] slot_of(ops, rs[i])) is Some && #[trigger] slot_of(ops, rs[j])
                == slot_of(ops, rs[i]) && rs[i].2 < rs[i].3 && rs[j].2 < rs[j].3 ==> rs[j].3 <= rs[i].2,
    ensures
        remove_all(ops, rs) == excised(ops, rs),
    decreases rs.len(),
{
    if rs.len() == 0 {
        assert forall|o: int| 0 <= o < ops.len() implies #[trigger] excised(ops, rs)[o] == ops[o] by {
            match ops[o] {
                OpModel::Single(Some(b)) => {
                    lemma_kept_uncovered(ops, rs, (o, None), 0, b.len() as int);
                    assert(b.subrange(0, b.len() as int) =~= b);
                },
                OpModel::Elements(es) => {
                    if let OpModel::Elements(a) = excised(ops, rs)[o] {
                        assert forall|k: int| 0 <= k < es.len() implies #[trigger] a[k] == es[k] by {
                            if let Some(b) = es[k] {
                                lemma_kept_uncovered(ops, rs, (o, Some(k)), 0, b.len() as int);
                                assert(b.subrange(0, b.len() as int) =~= b);
                            }
                        }
                        assert(a =~= es);
                    }
                },
                _ => {},
            }
        }
        assert(excised(ops, rs) =~= ops);
    } else {
        let rs1 = rs.drop_last();
        let last = rs.last();
        assert(last == rs[rs.len() - 1]);
        assert forall|i: int, j: int|
            0 <= i < j < rs1.len() && (#[trigger] slot_of(ops, rs1[i])) is Some && #[trigger] slot_of(ops, rs1[j])
                == slot_of(ops, rs1[i]) && rs1[i].2 < rs1[i].3 && rs1[j].2 < rs1[j].3 implies rs1[j].3 <= rs1[i].2 by {
            assert(rs1[i] == rs[i] && rs1[j] == rs[j]);
            assert(slot_of(ops, rs[i]) == slot_of(ops, rs1[i]));
            assert(slot_of(ops, rs[j]) == slot_of(ops, rs1[j]));
        }
        lemma_remove_all_slots(ops, rs1);
        let x = excised(ops, rs1);
        lemma_excised_shape(ops, rs1);
        lemma_same_shape_slot(x, ops, last);
        assert(remove_all(ops, rs) == remove_step(x, last));
        match slot_of(ops, last) {
            None => {
                assert forall|o: int| 0 <= o < ops.len() implies #[trigger] excised(ops, rs)[o] == x[o] by {
                    match ops[o] {
                        OpModel::Single(Some(_)) => {
                            lemma_slot_unaffected(ops, rs, (o, None));
                        },
                        OpModel::Elements(es) => {
                            if let (OpModel::Elements(a), OpModel::Elements(c)) = (excised(ops, rs)[o], x[o]) {
                                assert forall|k: int| 0 <= k < es.len() implies #[trigger] a[k] == c[k] by {
                                    lemma_slot_unaffected(ops, rs, (o, Some(k)));
                                }
                                assert(a =~= c);
                            }
                        },
                        _ => {},
                    }
                }
                assert(excised(ops, rs) =~= x);
            },
            Some(s0) => {
                assert(slot_of(ops, rs[rs.len() - 1]) == Some(s0));
                if last.2 < last.3 {
                    assert forall|i: int|
                        0 <= i < rs.len() - 1 && #[trigger] slot_of(ops, rs[i]) == Some(s0) && rs[i].2 < rs[i].3 implies rs.last().3
                        <= rs[i].2 by {}
                }
                lemma_slot_step(ops, rs, s0);
                let y = remove_step(x, last);
                assert forall|o: int| 0 <= o < ops.len() implies #[trigger] y[o] == excised(ops, rs)[o] by {
                    match ops[o] {
                        OpModel::Single(Some(_)) => {
                            if o != s0.0 {
                                lemma_slot_unaffected(ops, rs, (o, None));
                            }
                        },
                        OpModel::Elements(es) => {
                            if let (OpModel::Elements(a), OpModel::Elements(c)) = (excised(ops, rs)[o], y[o]) {
                                assert forall|k: int| 0 <= k < es.len() implies #[trigger] a[k] == c[k] by {
                                    if (o, Some(k)) != s0 {
                                        lemma_slot_unaffected(ops, rs, (o, Some(k)));
                                    }
                                }
                                assert(a =~= c);
                            }
                        },
                        _ => {},
                    }
                }
                assert(y =~= excised(ops, rs));
            },
        }
    }
}

proof fn lemma_count_two(s: Seq<Removal>, i: int, j: int)
    requires
        0 <= i < j < s.len(),
        s[i] == s[j],
    ensures
        s.to_multiset().count(s[i]) >= 2,
    decreases s.len(),
{
    broadcast use vstd::seq_lib::to_multiset_build, vstd::seq_lib::to_multiset_contains, vstd::multiset::group_multiset_axioms;

    let d = s.drop_last();
    assert(d.push(s.last()) =~= s);
    if j == s.len() - 1 {
        assert(d[i] == s[i]);
        assert(d.contains(s[i]));
    } else {
        assert(d[i] == s[i] && d[j] == s[j]);
        lemma_count_two(d, i, j);
    }
}

proof fn lemma_count_two_back(u: Seq<Removal>, x: Removal)
    requires
        u.to_multiset().count(x) >= 2,
    ensures
        exists|a: int, b: int| 0 <= a < u.len() && 0 <= b < u.len() && a != b && u[a] == x && u[b] == x,
    decreases u.len(),
{
    broadcast use vstd::seq_lib::to_multiset_build, vstd::seq_lib::to_multiset_contains, vstd::multiset::group_multiset_axioms;

    if u.len() == 0 {
        assert(u.to_multiset().count(x) == 0);
    } else {
        let d = u.drop_last();
        assert(d.push(u.last()) =~= u);
        if u.last() == x {
            assert(d.to_multiset().count(x) >= 1);
            assert(d.contains(x));
            let a = choose|a: int| 0 <= a < d.len() && d[a] == x;
            assert(u[a] == x && u[u.len() - 1] == x);
        } else {
            lemma_count_two_back(d, x);
            let (a, b) = choose|a: int, b: int| 0 <= a < d.len() && 0 <= b < d.len() && a != b && d[a] == x && d[b] == x;
            assert(u[a] == x && u[b] == x);
        }
    }
}

/// Content-stream surgery removes exactly the placeholder bytes: when the
/// references into a `Tj`-like string carry no element index and no two
/// non-empty references into the same string overlap, excising them in
/// planned order leaves every string with exactly its bytes outside the
/// references' ranges (clamped to the string), in order. References past
/// the operations, at operations or array elements without a string, or
/// with an empty range change nothing; every other operation stays as it
/// was.
pub proof fn law_excise_placeholders(ops: Seq<OpModel>, refs: Seq<SpanMatchRef>)
    requires
        forall|k: int|
            0 <= k < refs.len() ==> ((#[trigger] slot_of(ops, refs_removals(refs)[k])) matches Some((_, None))
                ==> refs[k].sub_index is None),
        forall|i: int, j: int|
            0 <= i < refs.len() && 0 <= j < refs.len() && i != j && (#[trigger] slot_of(
                ops,
                refs_removals(refs)[i],
            )) is Some && slot_of(ops, refs_removals(refs)[i]) == #[trigger] slot_of(ops, refs_removals(refs)[j])
                && refs[i].byte_start < refs[i].byte_end && refs[j].byte_start < refs[j].byte_end
                ==> refs[i].byte_end <= refs[j].byte_start || refs[j].byte_end <= refs[i].byte_start,
    ensures
        remove_all(ops, sort_removals(refs_removals(refs))) == excised(ops, refs_removals(refs)),
{
    broadcast use vstd::seq_lib::to_multiset_contains;

    let u = refs_removals(refs);
    let s = sort_removals(u);
    law_removals_sorted_permutation(u);
    assert forall|k: int| 0 <= k < u.len() implies #[trigger] u[k] == (
        refs[k].op_index,
        refs[k].sub_index,
        refs[k].byte_start,
        refs[k].byte_end,
    ) by {}
    // Each sorted removal is one of the given ones.
    assert forall|k: int| 0 <= k < s.len() implies exists|i: int| 0 <= i < u.len() && u[i] == #[trigger] s[k] by {
        assert(s.contains(s[k]));
        assert(s.to_multiset().count(s[k]) > 0);
        assert(u.contains(s[k]));
    }
    // Removals that cut a string are not repeated, so the sorted ones are
    // distinct wherever they cut the same string.
    assert forall|i: int, j: int|
        0 <= i < j < s.len() && (#[trigger] slot_of(ops, s[i])) is Some && #[trigger] slot_of(ops, s[j]) == slot_of(
            ops,
            s[i],
        ) && s[i].2 < s[i].3 && s[j].2 < s[j].3 implies s[j].3 <= s[i].2 by {
        let i1 = choose|x: int| 0 <= x < u.len() && u[x] == s[i];
        let j1 = choose|x: int| 0 <= x < u.len() && u[x] == s[j];
        assert(slot_of(ops, u[i1]) == slot_of(ops, s[i]));
        assert(slot_of(ops, u[j1]) == slot_of(ops, s[j]));
        assert(!key_lt(s[i], s[j]));
        assert(s[i].1 == s[j].1);
        assert(s[i].2 >= s[j].2);
        if i1 == j1 {
            // The same removal at two places of the sorted sequence would
            // occur twice among the given ones.
            assert(s[i] == s[j]);
            lemma_count_two(s, i, j);
            assert(u.to_multiset().count(s[i]) >= 2);
            lemma_count_two_back(u, s[i]);
            let (a, b) = choose|a: int, b: int| 0 <= a < u.len() && 0 <= b < u.len() && a != b && u[a] == s[i] && u[b] == s[i];
            assert(slot_of(ops, u[a]) == slot_of(ops, u[b]));
            assert(refs[a].byte_end <= refs[b].byte_start || refs[b].byte_end <= refs[a].byte_start);
        } else {
            assert(refs[i1].byte_end <= refs[j1].byte_start || refs[j1].byte_end <= refs[i1].byte_start);
        }
    }
    lemma_remove_all_slots(ops, s);
    // Sorting does not change which bytes are covered.
    assert forall|sl: Slot, p: int| #[trigger] slot_covered(ops, s, sl, p) == slot_covered(ops, u, sl, p) by {
        if slot_covered(ops, s, sl, p) {
            let k = choose|k: int| 0 <= k < s.len() && #[trigger] slot_of(ops, s[k]) == Some(sl) && s[k].2 <= p < s[k].3;
            let i = choose|i: int| 0 <= i < u.len() && u[i] == s[k];
            assert(slot_of(ops, u[i]) == Some(sl));
        }
        if slot_covered(ops, u, sl, p) {
            let i = choose|i: int| 0 <= i < u.len() && #[trigger] slot_of(ops, u[i]) == Some(sl) && u[i].2 <= p < u[i].3;
            assert(u.contains(u[i]));
            assert(u.to_multiset().count(u[i]) > 0);
            assert(s.contains(u[i]));
            let k = choose|k: int| 0 <= k < s.len() && s[k] == u[i];
            assert(slot_of(ops, s[k]) == Some(sl));
        }
    }
    assert forall|o: int| 0 <= o < ops.len() implies #[trigger] excised(ops, s)[o] == excised(ops, u)[o] by {
        match ops[o] {
            OpModel::Single(Some(b)) => {
                lemma_kept_same_cover(ops, s, u, (o, None), 0, b.len() as int);
            },
            OpModel::Elements(es) => {
                if let (OpModel::Elements(a), OpModel::Elements(c)) = (excised(ops, s)[o], excised(ops, u)[o]) {
                    assert forall|k: int| 0 <= k < es.len() implies #[trigger] a[k] == c[k] by {
                        if let Some(b) = es[k] {
                            lemma_kept_same_cover(ops, s, u, (o, Some(k)), 0, slot_bytes(ops, (o, Some(k))).len() as int);
                        }
                    }
                    assert(a =~= c);
                }
            },
            _ => {},
        }
    }
    assert(excised(ops, s) =~= excised(ops, u));
}

} // verus!
