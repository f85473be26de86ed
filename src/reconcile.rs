use vstd::prelude::*;

use crate::label::{Label, LabelView};

verus! {

/// The ASCII lowercase of a character; other characters are kept.
pub open spec fn lower(c: char) -> char {
    if 'A' <= c && c <= 'Z' {
        ((c as u8) + 32) as char
    } else {
        c
    }
}

/// The key under which names are compared: their ASCII lowercase.
pub open spec fn fold(s: Seq<char>) -> Seq<char> {
    Seq::new(s.len(), |i: int| lower(s[i]))
}

/// Two names denote the same label when they agree up to ASCII case.
pub open spec fn same_name(a: Seq<char>, b: Seq<char>) -> bool {
    fold(a) == fold(b)
}

pub open spec fn views(ls: Seq<Label>) -> Seq<LabelView> {
    ls.map_values(|l: Label| l@)
}

/// `j` is the first label of `cur` whose name matches `name`.
pub open spec fn is_first_match(cur: Seq<LabelView>, name: Seq<char>, j: int) -> bool {
    &&& 0 <= j < cur.len()
    &&& same_name(cur[j].name, name)
    &&& forall|k: int| 0 <= k < j ==> !same_name(#[trigger] cur[k].name, name)
}

/// The position of the first label of `cur` that matches `name`.
pub open spec fn first_match(cur: Seq<LabelView>, name: Seq<char>) -> Option<int> {
    if exists|j: int| is_first_match(cur, name, j) {
        Some(choose|j: int| is_first_match(cur, name, j))
    } else {
        None
    }
}

/// The names under which the current labels are indexed: one per key, the
/// first label written with that key giving the name, in order.
pub open spec fn index_names(cur: Seq<LabelView>) -> Seq<Seq<char>>
    decreases cur.len(),
{
    if cur.len() == 0 {
        seq![]
    } else {
        let init = cur.drop_last();
        index_names(init) + if first_match(init, cur.last().name).is_some() {
            seq![]
        } else {
            seq![cur.last().name]
        }
    }
}

/// A call to the label service.
#[derive(Clone, Debug, PartialEq, Eq)]
pub enum LabelOp {
    /// Create the label.
    Create(Label),
    /// Rewrite the label now named `current_name` (exact case) to `label`,
    /// name included.
    Update { current_name: String, label: Label },
    /// Delete the label named so.
    Delete(String),
}

pub enum OpView {
    Create(LabelView),
    Update(Seq<char>, LabelView),
    Delete(Seq<char>),
}

impl View for LabelOp {
    type V = OpView;

    open spec fn view(&self) -> OpView {
        match self {
            LabelOp::Create(l) => OpView::Create(l@),
            LabelOp::Update { current_name, label } => OpView::Update(current_name@, label@),
            LabelOp::Delete(n) => OpView::Delete(n@),
        }
    }
}

/// Under merge, a desired label updates the first current label with its
/// name (addressed by that label's exact name), or else is created.
pub open spec fn merge_op(cur: Seq<LabelView>, l: LabelView) -> OpView {
    match first_match(cur, l.name) {
        Some(j) => OpView::Update(cur[j].name, l),
        None => OpView::Create(l),
    }
}

pub open spec fn merge_plan(desired: Seq<LabelView>, cur: Seq<LabelView>) -> Seq<OpView> {
    Seq::new(desired.len(), |i: int| merge_op(cur, desired[i]))
}

/// Under override, every indexed current label is deleted, then every
/// desired label is created.
pub open spec fn override_plan(desired: Seq<LabelView>, cur: Seq<LabelView>) -> Seq<OpView> {
    index_names(cur).map_values(|n: Seq<char>| OpView::Delete(n)) + desired.map_values(
        |l: LabelView| OpView::Create(l),
    )
}

pub open spec fn import_plan(desired: Seq<LabelView>, cur: Seq<LabelView>, override_all: bool) -> Seq<OpView> {
    if override_all {
        override_plan(desired, cur)
    } else {
        merge_plan(desired, cur)
    }
}

pub open spec fn ops_view(ops: Seq<LabelOp>) -> Seq<OpView> {
    ops.map_values(|o: LabelOp| o@)
}

proof fn lemma_ops_view_push(ops: Seq<LabelOp>, o: LabelOp)
    ensures
        ops_view(ops.push(o)) == ops_view(ops).push(o@),
{
    assert(ops_view(ops.push(o)) =~= ops_view(ops).push(o@));
}

fn lower_char(c: char) -> (r: char)
    ensures
        r == lower(c),
{
    if 'A' <= c && c <= 'Z' {
        ((c as u8) + 32) as char
    } else {
        c
    }
}

/// Whether two names agree up to ASCII case.
pub fn names_match(a: &str, b: &str) -> (r: bool)
    ensures
        r == same_name(a@, b@),
{
    let n = a.unicode_len();
    if n != b.unicode_len() {
        assert(fold(a@).len() != fold(b@).len());
        return false;
    }
    let mut i: usize = 0;
    while i < n
        invariant
            n == a@.len() == b@.len(),
            i <= n,
            forall|k: int| 0 <= k < i ==> lower(a@[k]) == lower(b@[k]),
        decreases n - i,
    {
        if lower_char(a.get_char(i)) != lower_char(b.get_char(i)) {
            assert(fold(a@)[i as int] != fold(b@)[i as int]);
            return false;
        }
        i = i + 1;
    }
    assert(fold(a@) =~= fold(b@));
    true
}

proof fn lemma_first_match_is(cur: Seq<LabelView>, name: Seq<char>, j: int)
    requires
        is_first_match(cur, name, j),
    ensures
        first_match(cur, name) == Some(j),
{
    let c = choose|x: int| is_first_match(cur, name, x);
    assert(is_first_match(cur, name, c));
    if c < j {
        assert(!same_name(cur[c].name, name));
    } else if j < c {
        assert(!same_name(cur[j].name, name));
    }
}

proof fn lemma_first_match_none(cur: Seq<LabelView>, name: Seq<char>)
    requires
        forall|k: int| 0 <= k < cur.len() ==> !same_name(#[trigger] cur[k].name, name),
    ensures
        first_match(cur, name).is_none(),
{
}

/// The position of the first of `labels[..upto]` whose name matches `name`.
fn find_first(labels: &Vec<Label>, upto: usize, name: &str) -> (r: Option<usize>)
    requires
        upto <= labels@.len(),
    ensures
        r matches Some(j) ==> first_match(views(labels@).take(upto as int), name@) == Some(j as int),
        r.is_none() ==> first_match(views(labels@).take(upto as int), name@).is_none(),
{
    let ghost cur = views(labels@).take(upto as int);
    let mut j: usize = 0;
    while j < upto
        invariant
            upto <= labels@.len(),
            cur == views(labels@).take(upto as int),
            j <= upto,
            forall|k: int| 0 <= k < j ==> !same_name(#[trigger] cur[k].name, name@),
        decreases upto - j,
    {
        if names_match(labels[j].name.as_str(), name) {
            proof {
                assert(same_name(name@, cur[j as int].name) == same_name(cur[j as int].name, name@));
                lemma_first_match_is(cur, name@, j as int);
            }
            return Some(j);
        }
        assert(cur[j as int] == labels@[j as int]@);
        j = j + 1;
    }
    proof {
        lemma_first_match_none(cur, name@);
    }
    None
}

/// The names of the indexed current labels, as `index_names` gives them.
fn indexed_names(current: &Vec<Label>) -> (r: Vec<String>)
    ensures
        r@.map_values(|n: String| n@) == index_names(views(current@)),
{
    let ghost cur = views(current@);
    let mut out: Vec<String> = Vec::new();
    let mut i: usize = 0;
    while i < current.len()
        invariant
            cur == views(current@),
            i <= current@.len(),
            out@.map_values(|n: String| n@) == index_names(cur.take(i as int)),
        decreases current@.len() - i,
    {
        let found = find_first(current, i, current[i].name.as_str());
        let ghost before = out@.map_values(|n: String| n@);
        proof {
            let pre = cur.take(i as int + 1);
            assert(pre.drop_last() =~= cur.take(i as int));
            assert(pre.last() == current@[i as int]@);
        }
        if found.is_none() {
            out.push(current[i].name.clone());
            assert(out@.map_values(|n: String| n@) =~= before + seq![current@[i as int].name@]);
        } else {
            assert(out@.map_values(|n: String| n@) =~= before + seq![]);
        }
        i = i + 1;
    }
    assert(cur.take(current@.len() as int) =~= cur);
    out
}

/// The calls that bring the current labels to the desired ones: under
/// merge, one update or create per desired label in order; under override,
/// a delete per indexed current label, then a create per desired label.
pub fn plan_import(desired: &Vec<Label>, current: &Vec<Label>, override_all: bool) -> (r: Vec<LabelOp>)
    ensures
        ops_view(r@) == import_plan(views(desired@), views(current@), override_all),
{
    let ghost want = views(desired@);
    let ghost cur = views(current@);
    let mut ops: Vec<LabelOp> = Vec::new();
    if override_all {
        let names = indexed_names(current);
        let ghost dels = index_names(cur).map_values(|n: Seq<char>| OpView::Delete(n));
        let mut i: usize = 0;
        while i < names.len()
            invariant
                names@.map_values(|n: String| n@) == index_names(cur),
                dels == index_names(cur).map_values(|n: Seq<char>| OpView::Delete(n)),
                i <= names@.len(),
                ops_view(ops@) == dels.take(i as int),
            decreases names@.len() - i,
        {
            let ghost prev = ops@;
            let op = LabelOp::Delete(names[i].clone());
            ops.push(op);
            proof {
                lemma_ops_view_push(prev, op);
                assert(dels.take(i as int + 1) =~= dels.take(i as int).push(dels[i as int]));
                assert(names@.map_values(|n: String| n@)[i as int] == names@[i as int]@);
                assert(ops_view(ops@) =~= dels.take(i as int + 1));
            }
            i = i + 1;
        }
        let ghost creates = want.map_values(|l: LabelView| OpView::Create(l));
        assert(ops_view(ops@) =~= dels);
        let mut j: usize = 0;
        while j < desired.len()
            invariant
                want == views(desired@),
                creates == want.map_values(|l: LabelView| OpView::Create(l)),
                j <= desired@.len(),
                ops_view(ops@) == dels + creates.take(j as int),
            decreases desired@.len() - j,
        {
            let ghost prev = ops@;
            let op = LabelOp::Create(desired[j].duplicate());
            ops.push(op);
            proof {
                lemma_ops_view_push(prev, op);
                assert(creates.take(j as int + 1) =~= creates.take(j as int).push(creates[j as int]));
                assert(ops_view(ops@) =~= dels + creates.take(j as int + 1));
            }
            j = j + 1;
        }
        assert(creates.take(desired@.len() as int) =~= creates);
    } else {
        let mut j: usize = 0;
        while j < desired.len()
            invariant
                want == views(desired@),
                cur == views(current@),
                j <= desired@.len(),
                ops_view(ops@) == merge_plan(want, cur).take(j as int),
            decreases desired@.len() - j,
        {
            let l = &desired[j];
            let ghost prev = ops@;
            let op = match find_first(current, current.len(), l.name.as_str()) {
                Some(k) => LabelOp::Update {
                    current_name: current[k].name.clone(),
                    label: l.duplicate(),
                },
                None => LabelOp::Create(l.duplicate()),
            };
            proof {
                assert(cur.take(current@.len() as int) =~= cur);
                assert(op@ == merge_op(cur, want[j as int]));
            }
            ops.push(op);
            proof {
                lemma_ops_view_push(prev, op);
                let mp = merge_plan(want, cur);
                assert(mp.take(j as int + 1) =~= mp.take(j as int).push(mp[j as int]));
                assert(ops_view(ops@) =~= merge_plan(want, cur).take(j as int + 1));
            }
            j = j + 1;
        }
        assert(merge_plan(want, cur).take(desired@.len() as int) =~= merge_plan(want, cur));
    }
    ops
}

proof fn lemma_first_exists(cur: Seq<LabelView>, name: Seq<char>, k: int)
    requires
        0 <= k < cur.len(),
        same_name(cur[k].name, name),
    ensures
        first_match(cur, name) matches Some(j) && is_first_match(cur, name, j) && j <= k,
    decreases k,
{
    if exists|k2: int| 0 <= k2 < k && same_name(#[trigger] cur[k2].name, name) {
        let k2 = choose|k2: int| 0 <= k2 < k && same_name(#[trigger] cur[k2].name, name);
        lemma_first_exists(cur, name, k2);
    } else {
        lemma_first_match_is(cur, name, k);
    }
}

proof fn lemma_index_from_cur(cur: Seq<LabelView>)
    ensures
        forall|d: int|
            0 <= d < index_names(cur).len() ==> exists|k: int|
                0 <= k < cur.len() && #[trigger] index_names(cur)[d] == #[trigger] cur[k].name,
    decreases cur.len(),
{
    if cur.len() > 0 {
        let init = cur.drop_last();
        let prev = index_names(init);
        let idx = index_names(cur);
        lemma_index_from_cur(init);
        assert forall|d: int| 0 <= d < idx.len() implies exists|k: int|
            0 <= k < cur.len() && #[trigger] idx[d] == #[trigger] cur[k].name by {
            if d < prev.len() {
                assert(idx[d] == prev[d]);
                let k = choose|k: int| 0 <= k < init.len() && #[trigger] prev[d] == #[trigger] init[k].name;
                assert(cur[k] == init[k]);
            } else {
                assert(idx[d] == cur[cur.len() - 1].name);
            }
        }
    }
}

proof fn lemma_index_covers(cur: Seq<LabelView>)
    ensures
        forall|k: int|
            0 <= k < cur.len() ==> exists|d: int|
                0 <= d < index_names(cur).len() && same_name(
                    #[trigger] index_names(cur)[d],
                    #[trigger] cur[k].name,
                ),
    decreases cur.len(),
{
    if cur.len() > 0 {
        let init = cur.drop_last();
        let last = cur.last();
        let prev = index_names(init);
        let idx = index_names(cur);
        lemma_index_covers(init);
        assert forall|d: int| 0 <= d < prev.len() implies #[trigger] idx[d] == prev[d] by {}
        assert forall|k: int| 0 <= k < cur.len() implies exists|d: int|
            0 <= d < idx.len() && same_name(#[trigger] idx[d], #[trigger] cur[k].name) by {
            if k < init.len() {
                assert(cur[k] == init[k]);
                let d = choose|d: int|
                    0 <= d < prev.len() && same_name(#[trigger] prev[d], #[trigger] init[k].name);
                assert(idx[d] == prev[d]);
            } else {
                match first_match(init, last.name) {
                    Some(j) => {
                        let c = choose|x: int| is_first_match(init, last.name, x);
                        assert(is_first_match(init, last.name, c));
                        let d = choose|d: int|
                            0 <= d < prev.len() && same_name(#[trigger] prev[d], #[trigger] init[c].name);
                        assert(idx[d] == prev[d]);
                        assert(same_name(idx[d], cur[k].name));
                    },
                    None => {
                        assert(idx[prev.len() as int] == cur[k].name);
                        assert(same_name(idx[prev.len() as int], cur[k].name));
                    },
                }
            }
        }
    }
}

proof fn lemma_index_distinct(cur: Seq<LabelView>)
    ensures
        forall|d1: int, d2: int|
            0 <= d1 < d2 < index_names(cur).len() ==> !same_name(
                #[trigger] index_names(cur)[d1],
                #[trigger] index_names(cur)[d2],
            ),
    decreases cur.len(),
{
    if cur.len() > 0 {
        let init = cur.drop_last();
        let last = cur.last();
        let prev = index_names(init);
        let idx = index_names(cur);
        lemma_index_distinct(init);
        lemma_index_from_cur(init);
        assert forall|d: int| 0 <= d < prev.len() implies #[trigger] idx[d] == prev[d] by {}
        assert forall|d1: int, d2: int| 0 <= d1 < d2 < idx.len() implies !same_name(
            #[trigger] idx[d1],
            #[trigger] idx[d2],
        ) by {
            if d2 >= prev.len() {
                assert(first_match(init, last.name).is_none());
                assert(idx[d2] == last.name);
                let k = choose|k: int| 0 <= k < init.len() && #[trigger] prev[d1] == #[trigger] init[k].name;
                if same_name(idx[d1], idx[d2]) {
                    assert(same_name(init[k].name, last.name));
                    lemma_first_exists(init, last.name, k);
                }
            } else {
                assert(idx[d1] == prev[d1]);
            }
        }
    }
}

/// Merge never deletes: each desired label, in order, becomes an update
/// of a current label whose name matches it up to ASCII case, addressed by
/// that label's exact name, when there is one, and a create otherwise.
pub proof fn lemma_merge_policy(desired: Seq<LabelView>, cur: Seq<LabelView>)
    ensures
        merge_plan(desired, cur).len() == desired.len(),
        forall|i: int|
            0 <= i < desired.len() ==> !(#[trigger] merge_plan(desired, cur)[i] matches OpView::Delete(_)),
        forall|i: int, k: int|
            0 <= i < desired.len() && 0 <= k < cur.len() && same_name(
                #[trigger] cur[k].name,
                #[trigger] desired[i].name,
            ) ==> (merge_plan(desired, cur)[i] matches OpView::Update(n, l) && l == desired[i]
                && exists|j: int| 0 <= j <= k && n == #[trigger] cur[j].name && same_name(n, desired[i].name)),
        forall|i: int|
            0 <= i < desired.len() && (forall|k: int| 0 <= k < cur.len() ==> !same_name(
                #[trigger] cur[k].name,
                desired[i].name,
            )) ==> #[trigger] merge_plan(desired, cur)[i] == OpView::Create(desired[i]),
{
    assert forall|i: int, k: int|
        0 <= i < desired.len() && 0 <= k < cur.len() && same_name(
            #[trigger] cur[k].name,
            #[trigger] desired[i].name,
        ) implies (merge_plan(desired, cur)[i] matches OpView::Update(n, l) && l == desired[i]
        && exists|j: int| 0 <= j <= k && n == #[trigger] cur[j].name && same_name(n, desired[i].name)) by {
        lemma_first_exists(cur, desired[i].name, k);
    }
}

/// Override deletes first and creates after: one delete for each current
/// label up to ASCII case (every current label is covered, no key twice,
/// each by a name it really has), then a create for every desired label,
/// in order.
pub proof fn lemma_override_policy(desired: Seq<LabelView>, cur: Seq<LabelView>)
    ensures
        ({
            let p = override_plan(desired, cur);
            let idx = index_names(cur);
            &&& p.len() == idx.len() + desired.len()
            &&& forall|d: int| 0 <= d < idx.len() ==> #[trigger] p[d] == OpView::Delete(idx[d])
            &&& forall|i: int|
                0 <= i < desired.len() ==> #[trigger] p[idx.len() + i] == OpView::Create(desired[i])
            &&& forall|k: int|
                0 <= k < cur.len() ==> exists|d: int|
                    0 <= d < idx.len() && same_name(#[trigger] idx[d], #[trigger] cur[k].name)
            &&& forall|d: int|
                0 <= d < idx.len() ==> exists|k: int| 0 <= k < cur.len() && #[trigger] idx[d] == #[trigger] cur[k].name
            &&& forall|d1: int, d2: int|
                0 <= d1 < d2 < idx.len() ==> !same_name(#[trigger] idx[d1], #[trigger] idx[d2])
        }),
{
    lemma_index_from_cur(cur);
    lemma_index_covers(cur);
    lemma_index_distinct(cur);
}

} // verus!
