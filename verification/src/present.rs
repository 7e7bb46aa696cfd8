//! The presenter: a pure derivation from the registry and the active sort
//! spec to the ordered table rows that the terminal layer draws.  Sorting is
//! applied to a snapshot at render time only; the registry keeps insertion
//! order.

use vstd::prelude::*;

use crate::app::Registry;
use crate::files::{DeletionState, DirEntry};
use crate::Sorting;

verus! {

/// Lexicographic order on character sequences; the crate's path order.
pub open spec fn lex_le(a: Seq<char>, b: Seq<char>) -> bool
    decreases a.len(),
{
    if a.len() == 0 {
        true
    } else if b.len() == 0 {
        false
    } else if a[0] != b[0] {
        a[0] < b[0]
    } else {
        lex_le(a.subrange(1, a.len() as int), b.subrange(1, b.len() as int))
    }
}

pub proof fn lemma_lex_le_total(a: Seq<char>, b: Seq<char>)
    ensures
        lex_le(a, b) || lex_le(b, a),
    decreases a.len(),
{
    if a.len() > 0 && b.len() > 0 && a[0] == b[0] {
        lemma_lex_le_total(a.subrange(1, a.len() as int), b.subrange(1, b.len() as int));
    }
}

pub proof fn lemma_lex_le_trans(a: Seq<char>, b: Seq<char>, c: Seq<char>)
    requires
        lex_le(a, b),
        lex_le(b, c),
    ensures
        lex_le(a, c),
    decreases a.len(),
{
    if a.len() > 0 && b.len() > 0 && c.len() > 0 && a[0] == b[0] && b[0] == c[0] {
        lemma_lex_le_trans(
            a.subrange(1, a.len() as int),
            b.subrange(1, b.len() as int),
            c.subrange(1, c.len() as int),
        );
    }
}

/// Compares two strings in the crate's path order.
pub fn str_le(a: &str, b: &str) -> (r: bool)
    ensures
        r == lex_le(a@, b@),
{
    let an = a.unicode_len();
    let bn = b.unicode_len();
    let mut i: usize = 0;
    proof {
        assert(a@.subrange(0, an as int) =~= a@);
        assert(b@.subrange(0, bn as int) =~= b@);
    }
    loop
        invariant
            i <= an,
            i <= bn,
            an == a@.len(),
            bn == b@.len(),
            a@.subrange(0, i as int) == b@.subrange(0, i as int),
            lex_le(a@, b@) == lex_le(
                a@.subrange(i as int, an as int),
                b@.subrange(i as int, bn as int),
            ),
        decreases an - i,
    {
        if i >= an {
            return true;
        }
        if i >= bn {
            return false;
        }
        let ca = a.get_char(i);
        let cb = b.get_char(i);
        proof {
            let ta = a@.subrange(i as int, an as int);
            let tb = b@.subrange(i as int, bn as int);
            assert(ta[0] == a@[i as int]);
            assert(tb[0] == b@[i as int]);
            assert(ta.subrange(1, ta.len() as int) =~= a@.subrange(i + 1, an as int));
            assert(tb.subrange(1, tb.len() as int) =~= b@.subrange(i + 1, bn as int));
            assert(a@.subrange(0, i + 1) =~= a@.subrange(0, i as int).push(a@[i as int]));
            assert(b@.subrange(0, i + 1) =~= b@.subrange(0, i as int).push(b@[i as int]));
        }
        if ca != cb {
            return ca < cb;
        }
        i = i + 1;
    }
}

/// One renderable table row: the entry's path and its size label, plus the
/// plain fields the label and the sort comparators are derived from, and
/// the stable identifier through which the visual position maps back to
/// the registry.
pub struct DisplayRow {
    pub id: u64,
    pub path: String,
    pub size: u64,
    pub deletion_state: DeletionState,
    pub size_label: String,
}

/// The mathematical content of a row: everything a row shows or sorts by,
/// with the strings as character sequences.
pub struct RowModel {
    pub id: u64,
    pub path: Seq<char>,
    pub size: u64,
    pub state: DeletionState,
    pub label: Seq<char>,
}

/// The label that `bytesize` produces for a byte count; a function of the
/// count alone.
pub uninterp spec fn byte_label_of(size: u64) -> Seq<char>;

pub open spec fn digit_char(d: nat) -> char {
    if d == 0 {
        '0'
    } else if d == 1 {
        '1'
    } else if d == 2 {
        '2'
    } else if d == 3 {
        '3'
    } else if d == 4 {
        '4'
    } else if d == 5 {
        '5'
    } else if d == 6 {
        '6'
    } else if d == 7 {
        '7'
    } else if d == 8 {
        '8'
    } else {
        '9'
    }
}

/// The decimal digits of `n`.
pub open spec fn spec_decimal(n: nat) -> Seq<char>
    decreases n,
{
    if n < 10 {
        seq![digit_char(n)]
    } else {
        spec_decimal(n / 10).push(digit_char(n % 10))
    }
}

/// Relies on `bytesize::to_string` (through `ByteSize`'s display): the
/// humanized label depends on the byte count alone, and below 1000 bytes
/// it is the decimal count followed by `" B"`.
#[verifier::external_body]
fn humanize_size(size: u64) -> (r: String)
    ensures
        r@ == byte_label_of(size),
        size < 1000 ==> r@ == spec_decimal(size as nat) + " B"@,
{
    bytesize::ByteSize(size).to_string()
}

/// The size label of a row: the humanized size, annotated per deletion
/// state.  A `Deleted` entry's size is replaced entirely by its marker.
pub open spec fn label_spec(size: u64, st: DeletionState) -> Seq<char> {
    match st {
        DeletionState::Ready => byte_label_of(size),
        DeletionState::Deleting => byte_label_of(size) + " [DELETING...]"@,
        DeletionState::Deleted => "[DELETED]"@,
        DeletionState::Error => byte_label_of(size) + " [ERROR DELETING]"@,
    }
}

/// Builds the size label for one entry.
pub fn size_label(size: u64, st: DeletionState) -> (r: String)
    ensures
        r@ == label_spec(size, st),
{
    match st {
        DeletionState::Ready => humanize_size(size),
        DeletionState::Deleting => {
            let mut s = humanize_size(size);
            s.append(" [DELETING...]");
            s
        },
        DeletionState::Deleted => "[DELETED]".to_owned(),
        DeletionState::Error => {
            let mut s = humanize_size(size);
            s.append(" [ERROR DELETING]");
            s
        },
    }
}

pub open spec fn row_model(r: DisplayRow) -> RowModel {
    RowModel { id: r.id, path: r.path@, size: r.size, state: r.deletion_state, label: r.size_label@ }
}

pub open spec fn entry_model(e: DirEntry) -> RowModel {
    RowModel {
        id: e.id,
        path: e.path@,
        size: e.size,
        state: e.deletion_state,
        label: label_spec(e.size, e.deletion_state),
    }
}

pub open spec fn models_of_rows(s: Seq<DisplayRow>) -> Seq<RowModel> {
    s.map_values(|r: DisplayRow| row_model(r))
}

pub open spec fn models_of_entries(s: Seq<DirEntry>) -> Seq<RowModel> {
    s.map_values(|e: DirEntry| entry_model(e))
}

/// The base comparator of each sort key: no order for `Unsorted`, path
/// order for `Name`, and descending byte size for `Size` (largest subtrees
/// surfaced first — the deliberate default direction).
pub open spec fn base_le(key: Sorting, a: RowModel, b: RowModel) -> bool {
    match key {
        Sorting::Unsorted => true,
        Sorting::Name => lex_le(a.path, b.path),
        Sorting::Size => b.size <= a.size,
    }
}

/// The active comparator: inversion flips whichever comparator the key
/// names (a no-op for `Unsorted`, whose comparator holds both ways).
pub open spec fn row_le(key: Sorting, inverted: bool, a: RowModel, b: RowModel) -> bool {
    if inverted {
        base_le(key, b, a)
    } else {
        base_le(key, a, b)
    }
}

/// Stable insertion of `x` into `s`: `x` goes after every element that the
/// comparator places at-or-before it.
pub open spec fn insert_sorted(key: Sorting, inverted: bool, x: RowModel, s: Seq<RowModel>) -> Seq<
    RowModel,
>
    decreases s.len(),
{
    if s.len() == 0 {
        seq![x]
    } else if row_le(key, inverted, s[0], x) {
        seq![s[0]] + insert_sorted(key, inverted, x, s.subrange(1, s.len() as int))
    } else {
        seq![x] + s
    }
}

/// The stable sort of `s` under the active comparator: each element in
/// turn is stably inserted into the sorted prefix, so elements the
/// comparator does not separate keep their insertion order.
pub open spec fn sort_models_spec(key: Sorting, inverted: bool, s: Seq<RowModel>) -> Seq<RowModel>
    decreases s.len(),
{
    if s.len() == 0 {
        s
    } else {
        insert_sorted(key, inverted, s.last(), sort_models_spec(key, inverted, s.drop_last()))
    }
}

/// The rows the presenter derives for a registry snapshot under a sort
/// spec.
pub open spec fn rendered_models(reg: Registry, key: Sorting, inverted: bool) -> Seq<RowModel> {
    sort_models_spec(key, inverted, models_of_entries(reg.entries@))
}

/// Law: flipping the sort inversion twice changes nothing: the derived row
/// order equals its pre-toggle state, whatever the key, because the
/// presenter is a pure function of the registry snapshot and the sort
/// spec, and double negation returns the spec to its old value.
pub proof fn lemma_double_inversion_identity(reg: Registry, key: Sorting, inverted: bool)
    ensures
        rendered_models(reg, key, !!inverted) == rendered_models(reg, key, inverted),
{
}

/// The rows stand in comparator order.
pub open spec fn sorted_by(key: Sorting, inverted: bool, s: Seq<RowModel>) -> bool {
    forall|i: int, j: int| 0 <= i < j < s.len() ==> row_le(key, inverted, #[trigger] s[i], #[trigger] s[j])
}

pub proof fn lemma_row_le_total(key: Sorting, inverted: bool, a: RowModel, b: RowModel)
    ensures
        row_le(key, inverted, a, b) || row_le(key, inverted, b, a),
{
    if key is Name {
        lemma_lex_le_total(a.path, b.path);
    }
}

pub proof fn lemma_row_le_trans(key: Sorting, inverted: bool, a: RowModel, b: RowModel, c: RowModel)
    requires
        row_le(key, inverted, a, b),
        row_le(key, inverted, b, c),
    ensures
        row_le(key, inverted, a, c),
{
    if key is Name {
        if inverted {
            lemma_lex_le_trans(c.path, b.path, a.path);
        } else {
            lemma_lex_le_trans(a.path, b.path, c.path);
        }
    }
}

/// The position at which stable insertion places `x` in `s`: right after
/// the longest prefix of elements at-or-before `x`.
pub open spec fn ins_pos(key: Sorting, inverted: bool, x: RowModel, s: Seq<RowModel>) -> int
    decreases s.len(),
{
    if s.len() == 0 {
        0
    } else if row_le(key, inverted, s[0], x) {
        1 + ins_pos(key, inverted, x, s.subrange(1, s.len() as int))
    } else {
        0
    }
}

proof fn lemma_ins_pos_props(key: Sorting, inverted: bool, x: RowModel, s: Seq<RowModel>)
    ensures
        0 <= ins_pos(key, inverted, x, s) <= s.len(),
        forall|l: int|
            0 <= l < ins_pos(key, inverted, x, s) ==> row_le(key, inverted, #[trigger] s[l], x),
        ins_pos(key, inverted, x, s) < s.len() ==> !row_le(
            key,
            inverted,
            s[ins_pos(key, inverted, x, s)],
            x,
        ),
    decreases s.len(),
{
    if s.len() > 0 && row_le(key, inverted, s[0], x) {
        let t = s.subrange(1, s.len() as int);
        lemma_ins_pos_props(key, inverted, x, t);
        assert forall|l: int| 0 <= l < ins_pos(key, inverted, x, s) implies row_le(
            key,
            inverted,
            #[trigger] s[l],
            x,
        ) by {
            if l > 0 {
                assert(t[l - 1] == s[l]);
            }
        }
        if ins_pos(key, inverted, x, s) < s.len() {
            assert(t[ins_pos(key, inverted, x, t)] == s[ins_pos(key, inverted, x, s)]);
        }
    }
}

/// Law: the derived rows stand in comparator order: under the active sort
/// key and direction, every row is at-or-before each later row.
pub proof fn lemma_sort_models_sorted(key: Sorting, inverted: bool, s: Seq<RowModel>)
    ensures
        sorted_by(key, inverted, sort_models_spec(key, inverted, s)),
    decreases s.len(),
{
    if s.len() > 0 {
        let sp = sort_models_spec(key, inverted, s.drop_last());
        let x = s.last();
        lemma_sort_models_sorted(key, inverted, s.drop_last());
        let j = ins_pos(key, inverted, x, sp);
        lemma_ins_pos_props(key, inverted, x, sp);
        lemma_insert_sorted_at(key, inverted, x, sp, j);
        let t = sort_models_spec(key, inverted, s);
        assert(t == sp.subrange(0, j) + seq![x] + sp.subrange(j, sp.len() as int));
        assert forall|a: int, b: int| 0 <= a < b < t.len() implies row_le(
            key,
            inverted,
            #[trigger] t[a],
            #[trigger] t[b],
        ) by {
            if j < sp.len() {
                lemma_row_le_total(key, inverted, sp[j], x);
            }
            if a < j {
                assert(t[a] == sp[a]);
            } else if a == j {
                assert(t[a] == x);
            } else {
                assert(t[a] == sp[a - 1]);
            }
            if b < j {
                assert(t[b] == sp[b]);
            } else if b == j {
                assert(t[b] == x);
            } else {
                assert(t[b] == sp[b - 1]);
            }
            if b == j {
                // t[a] == sp[a] with a < j: the prefix sits at-or-before x.
            } else if a == j {
                // t[b] == sp[b - 1] with b - 1 >= j: x sits at-or-before the
                // tail, through the element at the insertion point.
                assert(!row_le(key, inverted, sp[j], x));
                assert(row_le(key, inverted, x, sp[j]));
                if b - 1 > j {
                    assert(row_le(key, inverted, sp[j], sp[b - 1]));
                    lemma_row_le_trans(key, inverted, x, sp[j], sp[b - 1]);
                }
            } else if a < j && b > j {
                assert(row_le(key, inverted, sp[a], sp[b - 1]));
            }
        }
    }
}

/// Law: sorting only reorders.  The derived rows are a permutation of the
/// registry snapshot: every entry appears in the table exactly once.
pub proof fn lemma_sort_models_permutes(key: Sorting, inverted: bool, s: Seq<RowModel>)
    ensures
        sort_models_spec(key, inverted, s).to_multiset() == s.to_multiset(),
    decreases s.len(),
{
    broadcast use vstd::seq_lib::group_to_multiset_ensures;
    broadcast use vstd::multiset::group_multiset_axioms;

    if s.len() > 0 {
        let d = s.drop_last();
        let x = s.last();
        lemma_sort_models_permutes(key, inverted, d);
        let sp = sort_models_spec(key, inverted, d);
        let j = ins_pos(key, inverted, x, sp);
        lemma_ins_pos_props(key, inverted, x, sp);
        lemma_insert_sorted_at(key, inverted, x, sp, j);
        let t = sort_models_spec(key, inverted, s);
        assert(t == sp.subrange(0, j) + seq![x] + sp.subrange(j, sp.len() as int));
        assert(t[j] == x);
        assert(t.remove(j) =~= sp);
        assert(t.remove(j).to_multiset() =~= t.to_multiset().remove(t[j]));
        assert(t.contains(x));
        assert(t.to_multiset().count(x) > 0);
        assert forall|v: RowModel| t.to_multiset().count(v) == sp.to_multiset().insert(x).count(
            v,
        ) by {
            if v == x {
                assert(sp.to_multiset().count(x) == t.to_multiset().remove(x).count(x));
            } else {
                assert(sp.to_multiset().count(v) == t.to_multiset().remove(x).count(v));
            }
        }
        assert(t.to_multiset() =~= sp.to_multiset().insert(x));
        assert(s =~= d.push(x));
        assert(s.to_multiset() =~= d.to_multiset().insert(x));
    }
}

/// Compares two rows under the active comparator.
fn row_le_exec(key: Sorting, inverted: bool, a: &DisplayRow, b: &DisplayRow) -> (r: bool)
    ensures
        r == row_le(key, inverted, row_model(*a), row_model(*b)),
{
    let (x, y) = if inverted {
        (b, a)
    } else {
        (a, b)
    };
    match key {
        Sorting::Unsorted => true,
        Sorting::Name => str_le(x.path.as_str(), y.path.as_str()),
        Sorting::Size => y.size <= x.size,
    }
}

proof fn lemma_models_index(s: Seq<DisplayRow>, i: int)
    requires
        0 <= i < s.len(),
    ensures
        models_of_rows(s).len() == s.len(),
        models_of_rows(s)[i] == row_model(s[i]),
{
}

proof fn lemma_insert_sorted_at(key: Sorting, inverted: bool, x: RowModel, s: Seq<RowModel>, j: int)
    requires
        0 <= j <= s.len(),
        forall|l: int| 0 <= l < j ==> row_le(key, inverted, #[trigger] s[l], x),
        j < s.len() ==> !row_le(key, inverted, s[j], x),
    ensures
        insert_sorted(key, inverted, x, s) == s.subrange(0, j) + seq![x] + s.subrange(
            j,
            s.len() as int,
        ),
    decreases j,
{
    let t = s.subrange(1, s.len() as int);
    if j == 0 {
        if s.len() == 0 {
            assert(insert_sorted(key, inverted, x, s) =~= s.subrange(0, 0) + seq![x] + s.subrange(
                0,
                s.len() as int,
            ));
        } else {
            assert(insert_sorted(key, inverted, x, s) =~= s.subrange(0, 0) + seq![x] + s.subrange(
                0,
                s.len() as int,
            ));
        }
    } else {
        assert(row_le(key, inverted, s[0], x));
        lemma_insert_sorted_at(key, inverted, x, t, j - 1);
        assert(seq![s[0]] + (t.subrange(0, j - 1) + seq![x] + t.subrange(j - 1, t.len() as int))
            =~= s.subrange(0, j) + seq![x] + s.subrange(j, s.len() as int));
    }
}

/// Sorts the rows in place, stably, under the active comparator.
pub fn sort_rows(rows: &mut Vec<DisplayRow>, key: Sorting, inverted: bool)
    ensures
        models_of_rows(final(rows)@) == sort_models_spec(
            key,
            inverted,
            models_of_rows(old(rows)@),
        ),
{
    let ghost orig = models_of_rows(rows@);
    let n = rows.len();
    let mut k: usize = 1;
    proof {
        assert(models_of_rows(rows@).len() == rows@.len());
        if orig.len() > 0 {
            let s1 = orig.subrange(0, 1);
            assert(s1.drop_last().len() == 0);
            assert(sort_models_spec(key, inverted, s1.drop_last()) == s1.drop_last());
            assert(sort_models_spec(key, inverted, s1) == insert_sorted(
                key,
                inverted,
                s1.last(),
                s1.drop_last(),
            ));
            assert(insert_sorted(key, inverted, s1.last(), s1.drop_last()) =~= s1);
            assert(orig.subrange(0, 1) + orig.subrange(1, orig.len() as int) =~= orig);
        }
    }
    if n <= 1 {
        proof {
            if n == 1 {
                assert(orig.subrange(0, 1) =~= orig);
            }
            assert(sort_models_spec(key, inverted, orig) == orig);
        }
        return ;
    }
    while k < n
        invariant
            1 <= k <= n,
            n == rows@.len(),
            models_of_rows(rows@) == sort_models_spec(key, inverted, orig.subrange(0, k as int))
                + orig.subrange(k as int, orig.len() as int),
            orig.len() == n,
            sort_models_spec(key, inverted, orig.subrange(0, k as int)).len() == k,
        decreases n - k,
    {
        let ghost sorted_pre = sort_models_spec(key, inverted, orig.subrange(0, k as int));
        let ghost pre_rows = rows@;
        let x = rows.remove(k);
        proof {
            lemma_models_index(pre_rows, k as int);
            assert(row_model(x) == models_of_rows(pre_rows)[k as int]);
            assert(models_of_rows(pre_rows)[k as int] == orig.subrange(
                k as int,
                orig.len() as int,
            )[0]);
            assert(row_model(x) == orig[k as int]);
            assert forall|ii: int| 0 <= ii < rows@.len() implies #[trigger] models_of_rows(rows@)[ii]
                == (sorted_pre + orig.subrange(k + 1, orig.len() as int))[ii] by {
                lemma_models_index(rows@, ii);
                if ii < k {
                    assert(rows@[ii] == pre_rows[ii]);
                    lemma_models_index(pre_rows, ii);
                } else {
                    assert(rows@[ii] == pre_rows[ii + 1]);
                    lemma_models_index(pre_rows, ii + 1);
                }
            }
            assert(models_of_rows(rows@).len() == rows@.len());
            assert(models_of_rows(rows@) =~= sorted_pre + orig.subrange(k + 1, orig.len() as int));
        }
        let mut j: usize = 0;
        while j < k && row_le_exec(key, inverted, &rows[j], &x)
            invariant
                0 <= j <= k,
                k < n,
                n == rows@.len() + 1,
                models_of_rows(rows@) == sorted_pre + orig.subrange(k + 1, orig.len() as int),
                sorted_pre.len() == k,
                row_model(x) == orig[k as int],
                forall|l: int|
                    0 <= l < j ==> row_le(key, inverted, #[trigger] sorted_pre[l], orig[k as int]),
            decreases k - j,
        {
            proof {
                lemma_models_index(rows@, j as int);
                assert(row_model(rows@[j as int]) == sorted_pre[j as int]);
            }
            j = j + 1;
        }
        proof {
            if j < k {
                lemma_models_index(rows@, j as int);
                assert(row_model(rows@[j as int]) == sorted_pre[j as int]);
                assert(!row_le(key, inverted, sorted_pre[j as int], orig[k as int]));
            }
            lemma_insert_sorted_at(key, inverted, orig[k as int], sorted_pre, j as int);
        }
        let ghost mid_rows = rows@;
        rows.insert(j, x);
        proof {
            let pre1 = orig.subrange(0, k + 1);
            assert(pre1.drop_last() =~= orig.subrange(0, k as int));
            assert(pre1.last() == orig[k as int]);
            assert(sort_models_spec(key, inverted, pre1) == insert_sorted(
                key,
                inverted,
                orig[k as int],
                sorted_pre,
            ));
            let ins = sorted_pre.subrange(0, j as int) + seq![orig[k as int]] + sorted_pre.subrange(
                j as int,
                sorted_pre.len() as int,
            );
            assert(ins == insert_sorted(key, inverted, orig[k as int], sorted_pre));
            assert forall|ii: int| 0 <= ii < rows@.len() implies #[trigger] models_of_rows(rows@)[ii]
                == (ins + orig.subrange(k + 1, orig.len() as int))[ii] by {
                lemma_models_index(rows@, ii);
                if ii < j {
                    assert(rows@[ii] == mid_rows[ii]);
                    lemma_models_index(mid_rows, ii);
                } else if ii == j {
                    assert(rows@[ii] == x);
                } else {
                    assert(rows@[ii] == mid_rows[ii - 1]);
                    lemma_models_index(mid_rows, ii - 1);
                }
            }
            assert(models_of_rows(rows@).len() == rows@.len());
            assert(models_of_rows(rows@) =~= ins + orig.subrange(k + 1, orig.len() as int));
            assert(insert_sorted(key, inverted, orig[k as int], sorted_pre).len() == k + 1) by {
                lemma_insert_sorted_len(key, inverted, orig[k as int], sorted_pre);
            }
        }
        k = k + 1;
    }
    proof {
        assert(orig.subrange(0, n as int) =~= orig);
        assert(orig.subrange(n as int, orig.len() as int) =~= Seq::<RowModel>::empty());
        assert(sort_models_spec(key, inverted, orig) + Seq::<RowModel>::empty()
            =~= sort_models_spec(key, inverted, orig));
    }
}

proof fn lemma_insert_sorted_len(key: Sorting, inverted: bool, x: RowModel, s: Seq<RowModel>)
    ensures
        insert_sorted(key, inverted, x, s).len() == s.len() + 1,
    decreases s.len(),
{
    if s.len() > 0 && row_le(key, inverted, s[0], x) {
        lemma_insert_sorted_len(key, inverted, x, s.subrange(1, s.len() as int));
    }
}

/// Builds one unsorted row per registry entry, in insertion order.
pub fn rows_of(reg: &Registry) -> (rows: Vec<DisplayRow>)
    ensures
        models_of_rows(rows@) == models_of_entries(reg.entries@),
{
    let mut rows: Vec<DisplayRow> = Vec::new();
    let n = reg.entries.len();
    let mut i: usize = 0;
    while i < n
        invariant
            i <= n,
            n == reg.entries@.len(),
            rows@.len() == i,
            models_of_rows(rows@) == models_of_entries(reg.entries@.subrange(0, i as int)),
        decreases n - i,
    {
        let e = &reg.entries[i];
        let label = size_label(e.size, e.deletion_state);
        let row = DisplayRow {
            id: e.id,
            path: e.path.clone(),
            size: e.size,
            deletion_state: e.deletion_state,
            size_label: label,
        };
        let ghost pre = rows@;
        rows.push(row);
        proof {
            assert forall|ii: int| 0 <= ii < rows@.len() implies #[trigger] models_of_rows(rows@)[ii]
                == models_of_entries(reg.entries@.subrange(0, i + 1))[ii] by {
                lemma_models_index(rows@, ii);
                if ii < i {
                    assert(rows@[ii] == pre[ii]);
                    lemma_models_index(pre, ii);
                } else {
                    assert(rows@[ii] == row);
                }
            }
            assert(models_of_rows(rows@).len() == rows@.len());
            assert(models_of_rows(rows@) =~= models_of_entries(reg.entries@.subrange(0, i + 1)));
        }
        i = i + 1;
    }
    proof {
        assert(reg.entries@.subrange(0, n as int) =~= reg.entries@);
    }
    rows
}

/// Derives the rendered table: a snapshot of the registry's rows, stably
/// sorted under the active sort spec.  The registry itself is untouched.
pub fn derive_rows(reg: &Registry, key: Sorting, inverted: bool) -> (rows: Vec<DisplayRow>)
    ensures
        models_of_rows(rows@) == rendered_models(*reg, key, inverted),
        rows@.len() == reg.entries@.len(),
{
    let mut rows = rows_of(reg);
    sort_rows(&mut rows, key, inverted);
    proof {
        lemma_sort_models_len(key, inverted, models_of_entries(reg.entries@));
    }
    rows
}

/// The identifier of the entry at a visual (post-sort) position, if the
/// position is on the table.
pub fn id_at_visual(reg: &Registry, key: Sorting, inverted: bool, index: usize) -> (r: Option<u64>)
    ensures
        index < reg.entries@.len() ==> r == Some(rendered_models(*reg, key, inverted)[index as int].id),
        index >= reg.entries@.len() ==> r is None,
    {
    let rows = derive_rows(reg, key, inverted);
    proof {
        lemma_sort_models_len(key, inverted, models_of_entries(reg.entries@));
    }
    if index < rows.len() {
        proof {
            assert(models_of_rows(rows@)[index as int] == row_model(rows@[index as int]));
        }
        Some(rows[index].id)
    } else {
        None
    }
}

proof fn lemma_sort_models_len(key: Sorting, inverted: bool, s: Seq<RowModel>)
    ensures
        sort_models_spec(key, inverted, s).len() == s.len(),
    decreases s.len(),
{
    if s.len() > 0 {
        lemma_sort_models_len(key, inverted, s.drop_last());
        lemma_insert_sorted_len(
            key,
            inverted,
            s.last(),
            sort_models_spec(key, inverted, s.drop_last()),
        );
    }
}

/// The two header cells: the active sort key is marked, and the path
/// header carries the loading marker while the scan is still running.
pub fn header_labels(sorting: Sorting, loading: bool) -> (h: (String, String))
    ensures
        h.0@ == (if sorting == Sorting::Name {
            "> Path"@
        } else {
            "Path"@
        }) + (if loading {
            " [LOADING]"@
        } else {
            ""@
        }),
        h.1@ == if sorting == Sorting::Size {
            "> Size"@
        } else {
            "Size"@
        },
{
    let mut path_header = if sorting == Sorting::Name {
        "> Path".to_owned()
    } else {
        "Path".to_owned()
    };
    if loading {
        path_header.append(" [LOADING]");
    } else {
        proof {
            reveal_strlit("");
            assert(path_header@ + ""@ =~= path_header@);
        }
    }
    let size_header = if sorting == Sorting::Size {
        "> Size".to_owned()
    } else {
        "Size".to_owned()
    };
    (path_header, size_header)
}

} // verus!
