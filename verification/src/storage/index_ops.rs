//! What a change of an entity's fields changes in the indexes.

use vstd::prelude::*;

use crate::codec::{fields_view, Field, FieldView};
use crate::storage::columnar::{find_last, last_value};
use crate::text::{contains_text, texts};
use crate::value::{values_equal, Value, ValueView};

verus! {

/// A change of an index.
pub enum IndexOp {
    /// The entity no longer has the value in the column.
    Remove(String, Value),
    /// The entity has the value in the column.
    Insert(String, Value),
}

/// A change of an index in mathematical terms.
pub ghost enum IndexOpView {
    /// See [`IndexOp::Remove`].
    Remove(Seq<char>, ValueView),
    /// See [`IndexOp::Insert`].
    Insert(Seq<char>, ValueView),
}

impl View for IndexOp {
    type V = IndexOpView;

    open spec fn view(&self) -> IndexOpView {
        match *self {
            IndexOp::Remove(column, value) => IndexOpView::Remove(column@, value@),
            IndexOp::Insert(column, value) => IndexOpView::Insert(column@, value@),
        }
    }
}

/// Changes in mathematical terms.
pub open spec fn ops_view(ops: Seq<IndexOp>) -> Seq<IndexOpView> {
    ops.map_values(|op: IndexOp| op@)
}

/// Whether two values that may be missing are equal.
pub open spec fn optional_equal(a: Option<ValueView>, b: Option<ValueView>) -> bool {
    match (a, b) {
        (None, None) => true,
        (Some(x), Some(y)) => values_equal(x, y),
        _ => false,
    }
}

/// Whether there is a value that an index holds.
pub open spec fn indexable(v: Option<ValueView>) -> bool {
    v is Some && !(v->0 is Null)
}

/// What changes in one column: nothing where the value stays the same.
pub open spec fn column_ops(
    name: Seq<char>,
    before: Option<ValueView>,
    after: Option<ValueView>,
) -> Seq<IndexOpView> {
    if optional_equal(before, after) {
        Seq::empty()
    } else {
        (if indexable(before) {
            seq![IndexOpView::Remove(name, before->0)]
        } else {
            Seq::empty()
        }) + (if indexable(after) {
            seq![IndexOpView::Insert(name, after->0)]
        } else {
            Seq::empty()
        })
    }
}

/// What changes in the named columns.
pub open spec fn change_ops(
    names: Seq<Seq<char>>,
    before: Seq<FieldView>,
    after: Seq<FieldView>,
) -> Seq<IndexOpView>
    decreases names.len(),
{
    if names.len() == 0 {
        Seq::empty()
    } else {
        let name = names.last();
        change_ops(names.drop_last(), before, after) + column_ops(
            name,
            last_value(before, name),
            last_value(after, name),
        )
    }
}

/// The names, each once, in the order in which they first come.
pub open spec fn distinct(names: Seq<Seq<char>>) -> Seq<Seq<char>>
    decreases names.len(),
{
    if names.len() == 0 {
        Seq::empty()
    } else {
        let init = distinct(names.drop_last());
        if init.contains(names.last()) {
            init
        } else {
            init.push(names.last())
        }
    }
}

/// The names of fields.
pub open spec fn field_names(fs: Seq<FieldView>) -> Seq<Seq<char>> {
    fs.map_values(|f: FieldView| f.0)
}

/// The names that fields have before or after a change.
pub open spec fn touched_names(before: Seq<FieldView>, after: Seq<FieldView>) -> Seq<Seq<char>> {
    distinct(field_names(before) + field_names(after))
}

/// The names, each once.
pub fn distinct_texts(names: &[String]) -> (out: Vec<String>)
    ensures
        texts(out@) == distinct(texts(names@)),
{
    let ghost all = texts(names@);
    let mut out: Vec<String> = Vec::new();
    let mut i: usize = 0;
    assert(all.take(0) =~= Seq::<Seq<char>>::empty());
    assert(texts(out@) =~= Seq::<Seq<char>>::empty());
    while i < names.len()
        invariant
            i <= names@.len(),
            all == texts(names@),
            texts(out@) == distinct(all.take(i as int)),
        decreases names@.len() - i,
    {
        let ghost before = texts(out@);
        proof {
            assert(all.take(i + 1).drop_last() =~= all.take(i as int));
            assert(all.take(i + 1).last() == names@[i as int]@);
        }
        if !contains_text(out.as_slice(), names[i].as_str()) {
            out.push(names[i].clone());
            assert(texts(out@) =~= before.push(names@[i as int]@));
        }
        i = i + 1;
    }
    assert(all.take(all.len() as int) =~= all);
    out
}

fn push_names(out: &mut Vec<String>, fields: &[Field])
    ensures
        texts(final(out)@) == texts(old(out)@) + field_names(fields_view(fields@)),
{
    let ghost all = field_names(fields_view(fields@));
    let mut i: usize = 0;
    assert(texts(out@) =~= texts(old(out)@) + all.take(0));
    while i < fields.len()
        invariant
            i <= fields@.len(),
            all == field_names(fields_view(fields@)),
            texts(out@) == texts(old(out)@) + all.take(i as int),
        decreases fields@.len() - i,
    {
        let ghost before = texts(out@);
        out.push(fields[i].0.clone());
        i = i + 1;
        assert(texts(out@) =~= before.push(all[i - 1]));
        assert(texts(out@) =~= texts(old(out)@) + all.take(i as int));
    }
    assert(all.take(all.len() as int) =~= all);
}

/// The names that fields have before or after a change.
pub fn touched(before: &[Field], after: &[Field]) -> (out: Vec<String>)
    ensures
        texts(out@) == touched_names(fields_view(before@), fields_view(after@)),
{
    let mut all: Vec<String> = Vec::new();
    assert(texts(all@) =~= Seq::<Seq<char>>::empty());
    push_names(&mut all, before);
    push_names(&mut all, after);
    assert(texts(all@) =~= field_names(fields_view(before@)) + field_names(fields_view(after@)));
    distinct_texts(all.as_slice())
}

/// Plans what changes in the named columns.
pub fn plan_ops(names: &[String], before: &[Field], after: &[Field]) -> (out: Vec<IndexOp>)
    ensures
        ops_view(out@) == change_ops(texts(names@), fields_view(before@), fields_view(after@)),
{
    let ghost all = texts(names@);
    let ghost b = fields_view(before@);
    let ghost a = fields_view(after@);
    let mut out: Vec<IndexOp> = Vec::new();
    let mut i: usize = 0;
    assert(all.take(0) =~= Seq::<Seq<char>>::empty());
    assert(ops_view(out@) =~= Seq::<IndexOpView>::empty());
    while i < names.len()
        invariant
            i <= names@.len(),
            all == texts(names@),
            b == fields_view(before@),
            a == fields_view(after@),
            ops_view(out@) == change_ops(all.take(i as int), b, a),
        decreases names@.len() - i,
    {
        let ghost start = ops_view(out@);
        let name: &String = &names[i];
        proof {
            assert(all.take(i + 1).drop_last() =~= all.take(i as int));
            assert(all.take(i + 1).last() == name@);
        }
        let old_value: Option<&Value> = find_last(before, name.as_str());
        let new_value: Option<&Value> = find_last(after, name.as_str());
        let unchanged: bool = match (old_value, new_value) {
            (None, None) => true,
            (Some(x), Some(y)) => x.same(y),
            _ => false,
        };
        let ghost planned = column_ops(name@, last_value(b, name@), last_value(a, name@));
        if !unchanged {
            if let Some(v) = old_value {
                if !v.is_null() {
                    out.push(IndexOp::Remove(name.clone(), v.copy()));
                    assert(ops_view(out@) =~= start.push(
                        IndexOpView::Remove(name@, last_value(b, name@)->0),
                    ));
                }
            }
            let ghost middle = ops_view(out@);
            if let Some(v) = new_value {
                if !v.is_null() {
                    out.push(IndexOp::Insert(name.clone(), v.copy()));
                    assert(ops_view(out@) =~= middle.push(
                        IndexOpView::Insert(name@, last_value(a, name@)->0),
                    ));
                }
            }
            assert(ops_view(out@) =~= start + planned);
        } else {
            assert(ops_view(out@) =~= start + planned);
        }
        i = i + 1;
    }
    assert(all.take(all.len() as int) =~= all);
    out
}

/// Where no value changes, nothing changes in the indexes.
pub proof fn law_same_fields_change_nothing(names: Seq<Seq<char>>, before: Seq<FieldView>, after: Seq<FieldView>)
    requires
        forall|n: int|
            0 <= n < names.len() ==> optional_equal(
                last_value(before, #[trigger] names[n]),
                last_value(after, names[n]),
            ),
    ensures
        change_ops(names, before, after) == Seq::<IndexOpView>::empty(),
    decreases names.len(),
{
    if names.len() > 0 {
        let init = names.drop_last();
        assert forall|n: int| 0 <= n < init.len() implies optional_equal(
            last_value(before, #[trigger] init[n]),
            last_value(after, init[n]),
        ) by {
            assert(init[n] == names[n]);
        }
        law_same_fields_change_nothing(init, before, after);
        assert(names.last() == names[names.len() - 1]);
        assert(change_ops(names, before, after) =~= Seq::<IndexOpView>::empty());
    }
}

} // verus!
