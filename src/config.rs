//! Layered configuration documents and their merge.
use vstd::prelude::*;

verus! {

broadcast use vstd::std_specs::vec::group_vec_axioms;

/// A configuration document value.
#[derive(Debug, PartialEq)]
pub enum Value {
    String(String),
    Integer(i64),
    /// A float, held as its IEEE-754 bits.
    Float(u64),
    Boolean(bool),
    /// A date-time, held as its RFC 3339 text.
    Datetime(String),
    Array(Vec<Value>),
    /// Key/value entries, each key at most once.
    Table(Vec<(String, Value)>),
}

/// The mathematical form of a document value.
pub ghost enum Doc {
    Str(Seq<char>),
    Int(int),
    Float(u64),
    Bool(bool),
    Datetime(Seq<char>),
    Arr(Seq<Doc>),
    Tbl(Seq<(Seq<char>, Doc)>),
}

pub open spec fn doc_of(v: Value) -> Doc
    decreases v,
{
    match v {
        Value::String(s) => Doc::Str(s@),
        Value::Integer(i) => Doc::Int(i as int),
        Value::Float(b) => Doc::Float(b),
        Value::Boolean(b) => Doc::Bool(b),
        Value::Datetime(s) => Doc::Datetime(s@),
        Value::Array(items) => Doc::Arr(
            Seq::new(
                items@.len(),
                |i: int|
                    if 0 <= i < items@.len() {
                        doc_of(items@[i])
                    } else {
                        Doc::Bool(false)
                    },
            ),
        ),
        Value::Table(entries) => Doc::Tbl(
            Seq::new(
                entries@.len(),
                |i: int|
                    if 0 <= i < entries@.len() {
                        (entries@[i].0@, doc_of(entries@[i].1))
                    } else {
                        (Seq::empty(), Doc::Bool(false))
                    },
            ),
        ),
    }
}

impl View for Value {
    type V = Doc;

    open spec fn view(&self) -> Doc {
        doc_of(*self)
    }
}


pub open spec fn docs(s: Seq<Value>) -> Seq<Doc> {
    s.map_values(|v: Value| v@)
}

pub open spec fn entry_docs(s: Seq<(String, Value)>) -> Seq<(Seq<char>, Doc)> {
    s.map_values(|e: (String, Value)| (e.0@, e.1@))
}

/// The key under which an element of an array names itself.
pub open spec fn name_key() -> Seq<char> {
    seq!['n', 'a', 'm', 'e']
}

/// `i` is the first entry of `es` with key `k`.
pub open spec fn is_first_key(es: Seq<(Seq<char>, Doc)>, k: Seq<char>, i: int) -> bool {
    &&& 0 <= i < es.len()
    &&& es[i].0 == k
    &&& forall|j: int| 0 <= j < i ==> es[j].0 != k
}

/// Position of the entry with key `k`, if any.
pub open spec fn key_index(es: Seq<(Seq<char>, Doc)>, k: Seq<char>) -> Option<int> {
    if exists|i: int| is_first_key(es, k, i) {
        Some(choose|i: int| is_first_key(es, k, i))
    } else {
        None
    }
}

/// The value under key `k` of a table; none for a missing key or another kind of value.
pub open spec fn lookup(d: Doc, k: Seq<char>) -> Option<Doc> {
    match d {
        Doc::Tbl(es) => match key_index(es, k) {
            Some(i) => Some(es[i].1),
            None => None,
        },
        _ => None,
    }
}

/// The name of a value: its `name` entry, when it is a table holding a string there.
pub open spec fn name_of(d: Doc) -> Option<Seq<char>> {
    match lookup(d, name_key()) {
        Some(Doc::Str(s)) => Some(s),
        _ => None,
    }
}

/// `i` is the first element of `ds` named `n`.
pub open spec fn is_first_named(ds: Seq<Doc>, n: Seq<char>, i: int) -> bool {
    &&& 0 <= i < ds.len()
    &&& name_of(ds[i]) == Some(n)
    &&& forall|j: int| 0 <= j < i ==> name_of(ds[j]) != Some(n)
}

/// Position of the first element named `n`, if any.
pub open spec fn named_index(ds: Seq<Doc>, n: Seq<char>) -> Option<int> {
    if exists|i: int| is_first_named(ds, n, i) {
        Some(choose|i: int| is_first_named(ds, n, i))
    } else {
        None
    }
}

/// One level less deep, but never below zero.
pub open spec fn lower(depth: nat) -> nat {
    if depth > 0 {
        (depth - 1) as nat
    } else {
        0
    }
}

/// `right` merged onto `left`. Two tables take the union of their keys,
/// merging the values of shared keys one level deeper (never below zero).
/// Two arrays at depth zero: `right` replaces `left`. Two arrays deeper down
/// match elements by name, merging matched pairs one level deeper in place
/// and appending the rest. Any other pair of values: `right` wins.
pub open spec fn merged(left: Doc, right: Doc, depth: nat) -> Doc
    decreases right,
{
    match (left, right) {
        (Doc::Arr(ls), Doc::Arr(rs)) => if depth == 0 {
            right
        } else {
            Doc::Arr(merged_items(ls, rs, (depth - 1) as nat))
        },
        (Doc::Tbl(lt), Doc::Tbl(rt)) => Doc::Tbl(merged_entries(lt, rt, lower(depth))),
        _ => right,
    }
}

/// Array elements `rs` merged one after another onto `ls`.
pub open spec fn merged_items(ls: Seq<Doc>, rs: Seq<Doc>, depth: nat) -> Seq<Doc>
    decreases rs,
{
    if rs.len() == 0 {
        ls
    } else {
        let acc = merged_items(ls, rs.drop_last(), depth);
        let r = rs.last();
        match name_of(r) {
            Some(n) => match named_index(acc, n) {
                Some(i) => acc.update(i, merged(acc[i], r, depth)),
                None => acc.push(r),
            },
            None => acc.push(r),
        }
    }
}

/// Table entries `rt` merged one after another onto `lt`.
pub open spec fn merged_entries(lt: Seq<(Seq<char>, Doc)>, rt: Seq<(Seq<char>, Doc)>, depth: nat) -> Seq<
    (Seq<char>, Doc),
>
    decreases rt,
{
    if rt.len() == 0 {
        lt
    } else {
        let acc = merged_entries(lt, rt.drop_last(), depth);
        let k = rt.last().0;
        let v = rt.last().1;
        match key_index(acc, k) {
            Some(i) => acc.update(i, (k, merged(acc[i].1, v, depth))),
            None => acc.push((k, v)),
        }
    }
}

proof fn lemma_first_key_unique(es: Seq<(Seq<char>, Doc)>, k: Seq<char>, i: int)
    requires
        is_first_key(es, k, i),
    ensures
        key_index(es, k) == Some(i),
{
    let c = choose|c: int| is_first_key(es, k, c);
    assert(c == i) by {
        if c < i {
            assert(es[c].0 != k);
        } else if i < c {
            assert(es[i].0 != k);
        }
    }
}

proof fn lemma_first_named_unique(ds: Seq<Doc>, n: Seq<char>, i: int)
    requires
        is_first_named(ds, n, i),
    ensures
        named_index(ds, n) == Some(i),
{
    let c = choose|c: int| is_first_named(ds, n, c);
    assert(c == i) by {
        if c < i {
            assert(name_of(ds[c]) != Some(n));
        } else if i < c {
            assert(name_of(ds[i]) != Some(n));
        }
    }
}

/// Finds the entry with key `k`.
fn find_key(es: &Vec<(String, Value)>, k: &String) -> (r: Option<usize>)
    ensures
        match r {
            Some(i) => key_index(entry_docs(es@), k@) == Some(i as int),
            None => key_index(entry_docs(es@), k@) is None,
        },
{
    let ghost eds = entry_docs(es@);
    let mut i: usize = 0;
    while i < es.len()
        invariant
            i <= es@.len(),
            eds == entry_docs(es@),
            forall|j: int| 0 <= j < i ==> eds[j].0 != k@,
        decreases es@.len() - i,
    {
        if es[i].0 == *k {
            proof {
                lemma_first_key_unique(eds, k@, i as int);
            }
            return Some(i);
        }
        i = i + 1;
    }
    None
}

/// The name of a value (see `name_of`).
pub fn get_name(v: &Value) -> (r: Option<&String>)
    ensures
        match r {
            Some(s) => name_of(v@) == Some(s@),
            None => name_of(v@) is None,
        },
{
    match v {
        Value::Table(es) => {
            proof {
                reveal_strlit("name");
                assert(entry_docs(es@) =~= match v@ { Doc::Tbl(t) => t, _ => Seq::empty() });
            }
            let key = "name".to_owned();
            assert(key@ =~= name_key());
            match find_key(es, &key) {
                Some(i) => match &es[i].1 {
                    Value::String(s) => Some(s),
                    _ => None,
                },
                None => None,
            }
        },
        _ => None,
    }
}


/// Whether a value is well formed (see `valid`).
pub fn is_valid(v: &Value) -> (r: bool)
    ensures
        r == valid(v@),
    decreases v,
{
    match v {
        Value::Array(items) => {
            let ghost ds = docs(items@);
            proof {
                assert(ds =~= match v@ { Doc::Arr(a) => a, _ => ds });
                lemma_valid_parts(v@);
            }
            let mut i: usize = 0;
            while i < items.len()
                invariant
                    i <= items@.len(),
                    ds == docs(items@),
                    *v == Value::Array(*items),
                    valid(v@) == all_valid(ds),
                    forall|j: int| 0 <= j < i ==> #[trigger] valid(ds[j]),
                decreases items@.len() - i,
            {
                proof {
                    assert(decreases_to!(items => items@));
                    assert(decreases_to!(items@ => items@[i as int]));
                }
                if !is_valid(&items[i]) {
                    assert(!valid(ds[i as int]));
                    return false;
                }
                i = i + 1;
            }
            true
        },
        Value::Table(es) => {
            let ghost ts = entry_docs(es@);
            proof {
                assert(ts =~= match v@ { Doc::Tbl(a) => a, _ => ts });
                lemma_valid_parts(v@);
            }
            let mut i: usize = 0;
            while i < es.len()
                invariant
                    i <= es@.len(),
                    ts == entry_docs(es@),
                    *v == Value::Table(*es),
                    valid(v@) == entries_valid(ts),
                    forall|j: int| 0 <= j < i ==> #[trigger] valid(ts[j].1),
                    forall|x: int, y: int| 0 <= x < i && 0 <= y < ts.len() && x != y ==> ts[x].0 != ts[y].0,
                decreases es@.len() - i,
            {
                proof {
                    assert(decreases_to!(es => es@));
                    assert(decreases_to!(es@ => es@[i as int]));
                }
                if !is_valid(&es[i].1) {
                    assert(!valid(ts[i as int].1));
                    return false;
                }
                let mut j: usize = 0;
                while j < es.len()
                    invariant
                        i < es@.len(),
                        j <= es@.len(),
                        ts == entry_docs(es@),
                        valid(v@) == entries_valid(ts),
                        forall|y: int| 0 <= y < j && y != i ==> ts[i as int].0 != ts[y].0,
                    decreases es@.len() - j,
                {
                    if j != i && es[j].0 == es[i].0 {
                        assert(ts[j as int].0 == ts[i as int].0);
                        return false;
                    }
                    j = j + 1;
                }
                i = i + 1;
            }
            true
        },
        _ => true,
    }
}

/// Finds the first element named `n`.
fn find_named(items: &Vec<Value>, n: &String) -> (r: Option<usize>)
    ensures
        match r {
            Some(i) => named_index(docs(items@), n@) == Some(i as int),
            None => named_index(docs(items@), n@) is None,
        },
{
    let ghost ds = docs(items@);
    let mut i: usize = 0;
    while i < items.len()
        invariant
            i <= items@.len(),
            ds == docs(items@),
            forall|j: int| 0 <= j < i ==> name_of(ds[j]) != Some(n@),
        decreases items@.len() - i,
    {
        match get_name(&items[i]) {
            Some(m) => {
                if *m == *n {
                    proof {
                        lemma_first_named_unique(ds, n@, i as int);
                    }
                    return Some(i);
                }
            },
            None => {},
        }
        i = i + 1;
    }
    None
}

/// Merges `right` onto `left`; `merge_depth` bounds how deep arrays are
/// merged rather than replaced (see `merged`).
pub fn merge_toml_values(left: Value, right: Value, merge_depth: usize) -> (r: Value)
    requires
        valid(left@),
        valid(right@),
    ensures
        r@ == merged(left@, right@, merge_depth as nat),
        valid(r@),
    decreases right,
{
    proof {
        lemma_merged_valid(left@, right@, merge_depth as nat);
    }
    match (left, right) {
        (Value::Array(left_items), Value::Array(right_items)) => {
            toml_array_value(merge_depth, left_items, right_items)
        },
        (Value::Table(left_map), Value::Table(right_map)) => {
            toml_table_value(merge_depth, left_map, right_map)
        },
        (_, value) => value,
    }
}

/// Merges two arrays: wholesale replacement at depth zero, else matching by name.
fn toml_array_value(merge_depth: usize, left_items: Vec<Value>, right_items: Vec<Value>) -> (r: Value)
    requires
        valid(Value::Array(left_items)@),
        valid(Value::Array(right_items)@),
    ensures
        r@ == merged(Value::Array(left_items)@, Value::Array(right_items)@, merge_depth as nat),
    decreases right_items,
{
    let ghost ls = docs(left_items@);
    let ghost rs = docs(right_items@);
    assert(Value::Array(left_items)@ == Doc::Arr(ls)) by {
        assert(docs(left_items@) =~= match Value::Array(left_items)@ { Doc::Arr(a) => a, _ => ls });
    }
    assert(Value::Array(right_items)@ == Doc::Arr(rs)) by {
        assert(docs(right_items@) =~= match Value::Array(right_items)@ { Doc::Arr(a) => a, _ => rs });
    }
    proof {
        lemma_valid_parts(Doc::Arr(ls));
        lemma_valid_parts(Doc::Arr(rs));
    }
    if merge_depth == 0 {
        return Value::Array(right_items);
    }
    let ghost d = (merge_depth - 1) as nat;
    let ghost rm = right_items;
    let mut acc = left_items;
    let mut rest = right_items;
    let ghost n = rs.len();
    while rest.len() > 0
        invariant
            n == rs.len(),
            rest@.len() <= n,
            docs(rest@) == rs.subrange(n - rest@.len(), n as int),
            docs(acc@) == merged_items(ls, rs.subrange(0, n - rest@.len()), d),
            merge_depth > 0,
            d == merge_depth - 1,
            rs == docs(rm@),
            rm == right_items,
            all_valid(ls),
            all_valid(rs),
            rest@ == rm@.subrange(n - rest@.len(), n as int),
        decreases rest@.len(),
    {
        let ghost i = n - rest@.len();
        let ghost before = docs(acc@);
        let ghost old_rest = rest@;
        let r_val = rest.remove(0);
        assert(r_val@ == rs[i]) by {
            assert(docs(old_rest)[0] == rs.subrange(i, n as int)[0]);
        }
        assert(docs(rest@) =~= rs.subrange(i + 1, n as int)) by {
            assert(rest@ =~= old_rest.subrange(1, old_rest.len() as int));
            assert forall|k: int| 0 <= k < rest@.len() implies docs(rest@)[k] == rs[i + 1 + k] by {
                assert(docs(old_rest)[k + 1] == rs.subrange(i, n as int)[k + 1]);
            }
        }
        let ghost pre = rs.subrange(0, i + 1);
        assert(pre.drop_last() =~= rs.subrange(0, i));
        assert(pre.last() == r_val@);
        let pos = match get_name(&r_val) {
            Some(r_name) => find_named(&acc, r_name),
            None => None,
        };
        match pos {
            Some(j) => {
                let l_val = acc.remove(j);
                assert(l_val@ == before[j as int]);
                proof {
                    assert(all_valid(rs.subrange(0, i))) by {
                        assert forall|x: int| 0 <= x < i implies #[trigger] valid(rs.subrange(0, i)[x]) by {
                            assert(rs.subrange(0, i)[x] == rs[x]);
                        }
                    }
                    lemma_items_valid(ls, rs.subrange(0, i), d);
                    assert(valid(before[j as int]));
                    assert(valid(rs[i]));
                }
                proof {
                    assert(r_val == rm@[i]);
                    assert(decreases_to!(rm => rm@));
                    assert(decreases_to!(rm@ => rm@[i]));
                    assert(decreases_to!(rm => r_val));
                }
                let m_val = merge_toml_values(l_val, r_val, merge_depth - 1);
                acc.insert(j, m_val);
                assert(docs(acc@) =~= before.update(j as int, merged(before[j as int], pre.last(), d)));
            },
            None => {
                acc.push(r_val);
                assert(docs(acc@) =~= before.push(pre.last()));
            },
        }
    }
    assert(rs.subrange(0, n as int) =~= rs);
    let r = Value::Array(acc);
    assert(docs(acc@) =~= match r@ { Doc::Arr(a) => a, _ => rs });
    r
}

/// Merges two tables by key: the union of their keys, with the values of
/// shared keys merged one level deeper, never below zero.
fn toml_table_value(merge_depth: usize, left_map: Vec<(String, Value)>, right_map: Vec<(String, Value)>) -> (r: Value)
    requires
        valid(Value::Table(left_map)@),
        valid(Value::Table(right_map)@),
    ensures
        r@ == merged(Value::Table(left_map)@, Value::Table(right_map)@, merge_depth as nat),
    decreases right_map,
{
    let ghost lt = entry_docs(left_map@);
    let ghost rt = entry_docs(right_map@);
    assert(Value::Table(left_map)@ == Doc::Tbl(lt)) by {
        assert(entry_docs(left_map@) =~= match Value::Table(left_map)@ { Doc::Tbl(a) => a, _ => lt });
    }
    assert(Value::Table(right_map)@ == Doc::Tbl(rt)) by {
        assert(entry_docs(right_map@) =~= match Value::Table(right_map)@ { Doc::Tbl(a) => a, _ => rt });
    }
    proof {
        lemma_valid_parts(Doc::Tbl(lt));
        lemma_valid_parts(Doc::Tbl(rt));
    }
    let inner: usize = if merge_depth > 0 {
        merge_depth - 1
    } else {
        0
    };
    let ghost d = lower(merge_depth as nat);
    let ghost rm = right_map;
    let mut acc = left_map;
    let mut rest = right_map;
    let ghost n = rt.len();
    while rest.len() > 0
        invariant
            n == rt.len(),
            rest@.len() <= n,
            entry_docs(rest@) == rt.subrange(n - rest@.len(), n as int),
            entry_docs(acc@) == merged_entries(lt, rt.subrange(0, n - rest@.len()), d),
            d == inner,
            rt == entry_docs(rm@),
            rm == right_map,
            entries_valid(lt),
            forall|j: int| 0 <= j < rt.len() ==> #[trigger] valid(rt[j].1),
            rest@ == rm@.subrange(n - rest@.len(), n as int),
        decreases rest@.len(),
    {
        let ghost i = n - rest@.len();
        let ghost before = entry_docs(acc@);
        let ghost old_rest = rest@;
        let (r_name, r_val) = rest.remove(0);
        assert(r_name@ == rt[i].0 && r_val@ == rt[i].1) by {
            assert(entry_docs(old_rest)[0] == rt.subrange(i, n as int)[0]);
        }
        assert(entry_docs(rest@) =~= rt.subrange(i + 1, n as int)) by {
            assert(rest@ =~= old_rest.subrange(1, old_rest.len() as int));
            assert forall|k: int| 0 <= k < rest@.len() implies entry_docs(rest@)[k] == rt[i + 1 + k] by {
                assert(entry_docs(old_rest)[k + 1] == rt.subrange(i, n as int)[k + 1]);
            }
        }
        let ghost pre = rt.subrange(0, i + 1);
        assert(pre.drop_last() =~= rt.subrange(0, i));
        assert(pre.last() == (r_name@, r_val@));
        match find_key(&acc, &r_name) {
            Some(j) => {
                let (_, l_val) = acc.remove(j);
                assert(l_val@ == before[j as int].1);
                proof {
                    assert forall|x: int| 0 <= x < rt.subrange(0, i).len() implies #[trigger] valid(rt.subrange(0, i)[x].1) by {
                        assert(rt.subrange(0, i)[x] == rt[x]);
                    }
                    lemma_entries_valid(lt, rt.subrange(0, i), d);
                    assert(valid(before[j as int].1));
                    assert(valid(rt[i].1));
                }
                proof {
                    assert(rm@[i] == (r_name, r_val));
                    assert(decreases_to!(rm => rm@));
                    assert(decreases_to!(rm@ => rm@[i]));
                    assert(decreases_to!(rm@[i] => r_val));
                    assert(decreases_to!(rm => r_val));
                }
                let merged_val = merge_toml_values(l_val, r_val, inner);
                acc.insert(j, (r_name, merged_val));
                assert(entry_docs(acc@) =~= before.update(
                    j as int,
                    (pre.last().0, merged(before[j as int].1, pre.last().1, d)),
                ));
            },
            None => {
                acc.push((r_name, r_val));
                assert(entry_docs(acc@) =~= before.push(pre.last()));
            },
        }
    }
    assert(rt.subrange(0, n as int) =~= rt);
    let r = Value::Table(acc);
    assert(entry_docs(acc@) =~= match r@ { Doc::Tbl(a) => a, _ => rt });
    r
}


/// The value under key `k` in a list of entries.
pub open spec fn entry_value(es: Seq<(Seq<char>, Doc)>, k: Seq<char>) -> Option<Doc> {
    match key_index(es, k) {
        Some(i) => Some(es[i].1),
        None => None,
    }
}

/// A value that is neither an array nor a table.
pub open spec fn is_scalar(d: Doc) -> bool {
    !(d is Arr) && !(d is Tbl)
}

/// No key occurs twice among the entries of a table.
pub open spec fn keys_unique(d: Doc) -> bool {
    match d {
        Doc::Tbl(es) => forall|i: int, j: int|
            0 <= i < es.len() && 0 <= j < es.len() && i != j ==> es[i].0 != es[j].0,
        _ => true,
    }
}

/// A well-formed document value: no table holds a key twice, at any depth.
pub open spec fn valid(d: Doc) -> bool
    decreases d, 1nat, 0nat,
{
    match d {
        Doc::Arr(items) => valid_upto(d, items.len() as int),
        Doc::Tbl(es) => keys_unique(d) && valid_upto(d, es.len() as int),
        _ => true,
    }
}

/// The first `k` elements of an array, or values of a table, are well formed.
pub open spec fn valid_upto(d: Doc, k: int) -> bool
    decreases d, 0nat, k,
{
    match d {
        Doc::Arr(items) => if k <= 0 || k > items.len() {
            true
        } else {
            valid_upto(d, k - 1) && valid(items[k - 1])
        },
        Doc::Tbl(es) => if k <= 0 || k > es.len() {
            true
        } else {
            valid_upto(d, k - 1) && valid(es[k - 1].1)
        },
        _ => true,
    }
}

pub open spec fn all_valid(ds: Seq<Doc>) -> bool {
    forall|i: int| 0 <= i < ds.len() ==> #[trigger] valid(ds[i])
}

pub open spec fn entries_valid(es: Seq<(Seq<char>, Doc)>) -> bool {
    &&& forall|i: int, j: int| 0 <= i < es.len() && 0 <= j < es.len() && i != j ==> es[i].0 != es[j].0
    &&& forall|i: int| 0 <= i < es.len() ==> #[trigger] valid(es[i].1)
}

pub open spec fn part(d: Doc, i: int) -> Doc {
    match d {
        Doc::Arr(items) => items[i],
        Doc::Tbl(es) => es[i].1,
        _ => d,
    }
}

pub open spec fn parts_len(d: Doc) -> int {
    match d {
        Doc::Arr(items) => items.len() as int,
        Doc::Tbl(es) => es.len() as int,
        _ => 0,
    }
}

proof fn lemma_valid_upto(d: Doc, k: int)
    requires
        0 <= k <= parts_len(d),
    ensures
        valid_upto(d, k) <==> forall|i: int| 0 <= i < k ==> #[trigger] valid(part(d, i)),
    decreases k,
{
    if k > 0 {
        lemma_valid_upto(d, k - 1);
        assert(valid_upto(d, k) == (valid_upto(d, k - 1) && valid(part(d, k - 1))));
        if forall|i: int| 0 <= i < k ==> #[trigger] valid(part(d, i)) {
            assert(valid(part(d, k - 1)));
            assert forall|i: int| 0 <= i < k - 1 implies #[trigger] valid(part(d, i)) by {
                assert(valid(part(d, i)));
            }
        }
    }
}

proof fn lemma_valid_parts(d: Doc)
    ensures
        d matches Doc::Arr(items) ==> (valid(d) <==> all_valid(items)),
        d matches Doc::Tbl(es) ==> (valid(d) <==> entries_valid(es)),
{
    match d {
        Doc::Arr(items) => {
            lemma_valid_upto(d, items.len() as int);
            if valid(d) {
                assert forall|i: int| 0 <= i < items.len() implies #[trigger] valid(items[i]) by {
                    assert(valid(part(d, i)));
                }
            } else if all_valid(items) {
                assert forall|i: int| 0 <= i < items.len() implies #[trigger] valid(part(d, i)) by {
                    assert(valid(items[i]));
                }
            }
        },
        Doc::Tbl(es) => {
            lemma_valid_upto(d, es.len() as int);
            if valid(d) {
                assert forall|i: int| 0 <= i < es.len() implies #[trigger] valid(es[i].1) by {
                    assert(valid(part(d, i)));
                }
            } else if entries_valid(es) {
                assert forall|i: int| 0 <= i < es.len() implies #[trigger] valid(part(d, i)) by {
                    assert(valid(es[i].1));
                }
            }
        },
        _ => {},
    }
}

/// Merging well-formed values gives a well-formed value.
pub proof fn lemma_merged_valid(left: Doc, right: Doc, depth: nat)
    requires
        valid(left),
        valid(right),
    ensures
        valid(merged(left, right, depth)),
    decreases right, 1nat,
{
    lemma_valid_parts(left);
    lemma_valid_parts(right);
    match (left, right) {
        (Doc::Arr(ls), Doc::Arr(rs)) => {
            if depth > 0 {
                lemma_items_valid(ls, rs, (depth - 1) as nat);
                lemma_valid_parts(merged(left, right, depth));
            }
        },
        (Doc::Tbl(lt), Doc::Tbl(rt)) => {
            lemma_entries_valid(lt, rt, lower(depth));
            lemma_valid_parts(merged(left, right, depth));
        },
        _ => {},
    }
}

proof fn lemma_items_valid(ls: Seq<Doc>, rs: Seq<Doc>, depth: nat)
    requires
        all_valid(ls),
        all_valid(rs),
    ensures
        all_valid(merged_items(ls, rs, depth)),
    decreases rs, 0nat,
{
    if rs.len() > 0 {
        let d = rs.drop_last();
        assert(all_valid(d)) by {
            assert forall|i: int| 0 <= i < d.len() implies #[trigger] valid(d[i]) by {
                assert(d[i] == rs[i]);
            }
        }
        lemma_items_valid(ls, d, depth);
        let acc = merged_items(ls, d, depth);
        let r = rs.last();
        assert(valid(r));
        match name_of(r) {
            Some(n) => match named_index(acc, n) {
                Some(i) => {
                    if 0 <= i < acc.len() {
                        lemma_merged_valid(acc[i], r, depth);
                    }
                    let u = acc.update(i, merged(acc[i], r, depth));
                    assert forall|j: int| 0 <= j < u.len() implies #[trigger] valid(u[j]) by {
                        if j != i {
                            assert(u[j] == acc[j]);
                        }
                    }
                },
                None => {
                    let u = acc.push(r);
                    assert forall|j: int| 0 <= j < u.len() implies #[trigger] valid(u[j]) by {
                        if j < acc.len() {
                            assert(u[j] == acc[j]);
                        }
                    }
                },
            },
            None => {
                let u = acc.push(r);
                assert forall|j: int| 0 <= j < u.len() implies #[trigger] valid(u[j]) by {
                    if j < acc.len() {
                        assert(u[j] == acc[j]);
                    }
                }
            },
        }
    }
}

proof fn lemma_entries_valid(lt: Seq<(Seq<char>, Doc)>, rt: Seq<(Seq<char>, Doc)>, depth: nat)
    requires
        entries_valid(lt),
        forall|i: int| 0 <= i < rt.len() ==> #[trigger] valid(rt[i].1),
    ensures
        entries_valid(merged_entries(lt, rt, depth)),
    decreases rt, 0nat,
{
    if rt.len() > 0 {
        let d = rt.drop_last();
        assert forall|i: int| 0 <= i < d.len() implies #[trigger] valid(d[i].1) by {
            assert(d[i] == rt[i]);
        }
        lemma_entries_valid(lt, d, depth);
        let acc = merged_entries(lt, d, depth);
        let k = rt.last().0;
        let v = rt.last().1;
        assert(valid(v));
        lemma_key_index_facts(acc, k);
        match key_index(acc, k) {
            Some(i) => {
                lemma_merged_valid(acc[i].1, v, depth);
                let u = acc.update(i, (k, merged(acc[i].1, v, depth)));
                assert forall|j: int| 0 <= j < u.len() implies u[j].0 == acc[j].0 by {}
                assert forall|j: int| 0 <= j < u.len() implies #[trigger] valid(u[j].1) by {
                    if j != i {
                        assert(u[j] == acc[j]);
                    }
                }
            },
            None => {
                let u = acc.push((k, v));
                assert forall|j: int| 0 <= j < acc.len() implies u[j] == acc[j] by {}
                assert forall|j: int| 0 <= j < u.len() implies #[trigger] valid(u[j].1) by {
                    if j < acc.len() {
                        assert(u[j] == acc[j]);
                    }
                }
            },
        }
    }
}

proof fn lemma_first_key_exists(es: Seq<(Seq<char>, Doc)>, k: Seq<char>, i: int)
    requires
        0 <= i < es.len(),
        es[i].0 == k,
    ensures
        exists|m: int| is_first_key(es, k, m),
    decreases i,
{
    if exists|j: int| 0 <= j < i && es[j].0 == k {
        let j = choose|j: int| 0 <= j < i && es[j].0 == k;
        lemma_first_key_exists(es, k, j);
    } else {
        assert(is_first_key(es, k, i));
    }
}

proof fn lemma_key_index_facts(es: Seq<(Seq<char>, Doc)>, k: Seq<char>)
    ensures
        key_index(es, k) is Some ==> is_first_key(es, k, key_index(es, k)->0),
        key_index(es, k) is None ==> forall|i: int| 0 <= i < es.len() ==> es[i].0 != k,
{
    if key_index(es, k) is None {
        assert forall|i: int| 0 <= i < es.len() implies es[i].0 != k by {
            if es[i].0 == k {
                lemma_first_key_exists(es, k, i);
            }
        }
    }
}

/// Merging an entry under another key leaves the value under `k` as it was.
proof fn lemma_step_other_key(acc: Seq<(Seq<char>, Doc)>, k2: Seq<char>, v2: Doc, d: nat, k: Seq<char>)
    requires
        k2 != k,
    ensures
        entry_value(
            match key_index(acc, k2) {
                Some(i) => acc.update(i, (k2, merged(acc[i].1, v2, d))),
                None => acc.push((k2, v2)),
            },
            k,
        ) == entry_value(acc, k),
{
    let acc2 = match key_index(acc, k2) {
        Some(i) => acc.update(i, (k2, merged(acc[i].1, v2, d))),
        None => acc.push((k2, v2)),
    };
    lemma_key_index_facts(acc, k2);
    lemma_key_index_facts(acc, k);
    assert forall|x: int| 0 <= x < acc.len() implies acc2[x].0 == acc[x].0 by {}
    match key_index(acc, k) {
        Some(x) => {
            assert(is_first_key(acc2, k, x));
            lemma_first_key_unique(acc2, k, x);
        },
        None => {
            lemma_key_index_facts(acc2, k);
            if key_index(acc2, k) is Some {
                let y = key_index(acc2, k)->0;
                assert(acc2[y].0 == k);
            }
        },
    }
}

/// Entries under other keys than `k` leave the value under `k` as it was.
proof fn lemma_entries_other_keys(lt: Seq<(Seq<char>, Doc)>, rt: Seq<(Seq<char>, Doc)>, d: nat, k: Seq<char>)
    requires
        forall|j: int| 0 <= j < rt.len() ==> rt[j].0 != k,
    ensures
        entry_value(merged_entries(lt, rt, d), k) == entry_value(lt, k),
    decreases rt.len(),
{
    if rt.len() > 0 {
        lemma_entries_other_keys(lt, rt.drop_last(), d, k);
        lemma_step_other_key(merged_entries(lt, rt.drop_last(), d), rt.last().0, rt.last().1, d, k);
    }
}

/// The scalar value of the only entry under `k` ends up under `k`.
/// The only entry under `k` ends up under `k`, merged onto whatever the
/// left-hand entries held there, if anything.
proof fn lemma_entries_key(lt: Seq<(Seq<char>, Doc)>, rt: Seq<(Seq<char>, Doc)>, d: nat, k: Seq<char>, p: int)
    requires
        0 <= p < rt.len(),
        rt[p].0 == k,
        forall|j: int| 0 <= j < rt.len() && j != p ==> rt[j].0 != k,
    ensures
        entry_value(merged_entries(lt, rt, d), k) == Some(rt[p].1) || exists|b: Doc|
            entry_value(merged_entries(lt, rt, d), k) == Some(merged(b, rt[p].1, d)),
    decreases rt.len(),
{
    let acc = merged_entries(lt, rt.drop_last(), d);
    if p < rt.len() - 1 {
        lemma_entries_key(lt, rt.drop_last(), d, k, p);
        lemma_step_other_key(acc, rt.last().0, rt.last().1, d, k);
    } else {
        let v = rt[p].1;
        lemma_key_index_facts(acc, k);
        let acc2 = merged_entries(lt, rt, d);
        match key_index(acc, k) {
            Some(i) => {
                assert(is_first_key(acc2, k, i));
                lemma_first_key_unique(acc2, k, i);
                assert(entry_value(acc2, k) == Some(merged(acc[i].1, v, d)));
            },
            None => {
                assert(is_first_key(acc2, k, acc.len() as int));
                lemma_first_key_unique(acc2, k, acc.len() as int);
            },
        }
    }
}

/// The value reached from `d` by following the keys of `path` through tables.
pub open spec fn lookup_path(d: Doc, path: Seq<Seq<char>>) -> Option<Doc>
    decreases path.len(),
{
    if path.len() == 0 {
        Some(d)
    } else {
        match lookup(d, path[0]) {
            Some(c) => lookup_path(c, path.drop_first()),
            None => None,
        }
    }
}

/// A scalar that a well-formed overlay sets at the end of a path of keys is
/// what the merged document holds at the end of that path, at every depth
/// and whatever the base holds.
pub proof fn lemma_overlay_scalar_wins(base: Doc, overlay: Doc, depth: nat, path: Seq<Seq<char>>, v: Doc)
    requires
        valid(overlay),
        path.len() > 0,
        lookup_path(overlay, path) == Some(v),
        is_scalar(v),
    ensures
        lookup_path(merged(base, overlay, depth), path) == Some(v),
    decreases path.len(),
{
    let k = path[0];
    let rest = path.drop_first();
    let rt = overlay->Tbl_0;
    let c = lookup(overlay, k)->0;
    if base is Tbl {
        lemma_valid_parts(overlay);
        lemma_key_index_facts(rt, k);
        let p = key_index(rt, k)->0;
        lemma_entries_key(base->Tbl_0, rt, lower(depth), k, p);
        let m = merged(base, overlay, depth);
        let x = lookup(m, k)->0;
        if rest.len() == 0 {
            if x != c {
                let b = choose|b: Doc| entry_value(merged_entries(base->Tbl_0, rt, lower(depth)), k) == Some(merged(b, c, lower(depth)));
                assert(x == merged(b, c, lower(depth)));
            }
        } else if x != c {
            let b = choose|b: Doc| entry_value(merged_entries(base->Tbl_0, rt, lower(depth)), k) == Some(merged(b, c, lower(depth)));
            assert(valid(rt[p].1));
            lemma_overlay_scalar_wins(b, c, lower(depth), rest, v);
        }
    }
}

/// A key that the overlay does not set keeps the base's value.
pub proof fn lemma_absent_key_kept(base: Doc, overlay: Doc, depth: nat, k: Seq<char>)
    requires
        base is Tbl,
        overlay is Tbl,
        lookup(overlay, k) is None,
    ensures
        lookup(merged(base, overlay, depth), k) == lookup(base, k),
{
    lemma_key_index_facts(overlay->Tbl_0, k);
    lemma_entries_other_keys(base->Tbl_0, overlay->Tbl_0, lower(depth), k);
}

/// At depth zero the right-hand array replaces the left one whole.
pub proof fn lemma_depth_zero_array_replaced(left: Seq<Doc>, right: Seq<Doc>)
    ensures
        merged(Doc::Arr(left), Doc::Arr(right), 0) == Doc::Arr(right),
{
}

/// The depth at which the language list is merged: a language's own nested
/// arrays are replaced by an override rather than merged element by element.
pub open spec fn language_merge_depth() -> nat {
    3
}

/// The built-in document with the user's and then the workspace's layered on.
pub open spec fn layered(builtin: Doc, user: Option<Doc>, workspace: Option<Doc>) -> Doc {
    let a = match user {
        Some(u) => merged(builtin, u, language_merge_depth()),
        None => builtin,
    };
    match workspace {
        Some(w) => merged(a, w, language_merge_depth()),
        None => a,
    }
}

/// Merges the user's and the workspace's language configuration, where
/// present, onto the built-in one, in that order.
pub fn merge_language_layers(builtin: Value, user: Option<Value>, workspace: Option<Value>) -> (r: Value)
    requires
        valid(builtin@),
        user matches Some(u) ==> valid(u@),
        workspace matches Some(w) ==> valid(w@),
    ensures
        valid(r@),
        r@ == layered(
            builtin@,
            match user {
                Some(u) => Some(u@),
                None => None,
            },
            match workspace {
                Some(w) => Some(w@),
                None => None,
            },
        ),
{
    let a = match user {
        Some(u) => merge_toml_values(builtin, u, 3),
        None => builtin,
    };
    match workspace {
        Some(w) => merge_toml_values(a, w, 3),
        None => a,
    }
}

} // verus!
